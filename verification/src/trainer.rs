//! Training by gradient descent, one example at a time.

use vstd::prelude::*;

use crate::matrix::{Matrix, MatrixView};
use crate::nnet::{
    affine, affine_fails, affine_of, chained, derivative, differentiated, errors_of, eval_fails,
    evaluated, layer_views,
    matrix_views, pass_has_the_sizes, Error, Layer, LayerView, Network, State,
};
use crate::reals::{descend, descend_of, hadamard, hadamard_of, product, product_of, Reals};
use crate::scalar::ZERO;

verus! {

/// A training example: a vector and the class that it belongs to.
#[derive(Debug)]
pub struct Data {
    /// The class, counted from zero.
    pub class: usize,
    /// The vector: a single row with one entry for each input of the
    /// network.
    pub data: Matrix,
}

/// `after` and `delta` are a result of one step of `rate` down the gradient
/// of the layer `before`, where `input` is the row that the layer was fed,
/// `errors` the error of the layer after it and `upstream` the transform
/// that carries that error back to this layer's output:
///
/// - the slope is the derivative of the activation function at each entry
///   of the layer's affine transform of `input`;
/// - `delta` is the entrywise product of `errors × upstream` and the slope;
/// - the gradient of the weights is `transpose(input) × delta`;
/// - the weights of `after` are those of `before`, a step of `rate` down
///   their gradient; its bias is that of `before`, a step of `rate` down
///   `delta`.
pub open spec fn stepped<K: Reals>(
    k: &K,
    before: LayerView,
    input: MatrixView,
    errors: MatrixView,
    upstream: MatrixView,
    rate: u64,
    after: LayerView,
    delta: MatrixView,
) -> bool {
    exists|linear: MatrixView, slope: MatrixView, carried: MatrixView, gradient: MatrixView|
        #![trigger
            differentiated(k, linear, slope),
            hadamard_of(k, carried, slope, delta),
            product_of(k, input.transposed(), delta, gradient),
        ]
        {
            &&& affine_of(k, before, input, linear)
            &&& differentiated(k, linear, slope)
            &&& product_of(k, errors, upstream, carried)
            &&& carried.is_row(before.outputs())
            &&& hadamard_of(k, carried, slope, delta)
            &&& delta.is_row(before.outputs())
            &&& delta.wf()
            &&& product_of(k, input.transposed(), delta, gradient)
            &&& gradient.same_shape(before.wages)
            &&& descend_of(k, before.wages, rate, gradient, after.wages)
            &&& descend_of(k, before.bias, rate, delta, after.bias)
            &&& after.wages.same_shape(before.wages)
            &&& after.bias.same_shape(before.bias)
            &&& after.wf()
        }
}

/// The layer `before` cannot take its step down the gradients `gradient`
/// of its weights and `delta` of its bias: a result of the step of the
/// weights has another shape than the weights, or it has that shape and a
/// result of the step of the bias has another shape than the bias.
pub open spec fn descent_fails<K: Reals>(
    k: &K,
    before: LayerView,
    rate: u64,
    gradient: MatrixView,
    delta: MatrixView,
) -> bool {
    exists|wages: MatrixView|
        {
            &&& #[trigger] descend_of(k, before.wages, rate, gradient, wages)
            &&& {
                ||| !wages.same_shape(before.wages)
                ||| exists|bias: MatrixView|
                    #[trigger] descend_of(k, before.bias, rate, delta, bias) && !bias.same_shape(
                        before.bias,
                    )
            }
        }
}

/// No step can be had from the error `delta` of the layer `before`: a
/// product of the transposed `input` and `delta` has another shape than the
/// weights, or it has that shape and the layer cannot take its step down it.
pub open spec fn gradient_fails<K: Reals>(
    k: &K,
    before: LayerView,
    input: MatrixView,
    rate: u64,
    delta: MatrixView,
) -> bool {
    exists|gradient: MatrixView|
        {
            &&& #[trigger] product_of(k, input.transposed(), delta, gradient)
            &&& {
                ||| !gradient.same_shape(before.wages)
                ||| descent_fails(k, before, rate, gradient, delta)
            }
        }
}

/// No step can be had from the carried error `carried` and the slope
/// `slope`: an entrywise product of the two is no row of the layer's
/// outputs, or it is one and no step can be had from it.
pub open spec fn delta_fails<K: Reals>(
    k: &K,
    before: LayerView,
    input: MatrixView,
    rate: u64,
    carried: MatrixView,
    slope: MatrixView,
) -> bool {
    exists|delta: MatrixView|
        {
            &&& #[trigger] hadamard_of(k, carried, slope, delta)
            &&& {
                ||| !delta.is_row(before.outputs())
                ||| gradient_fails(k, before, input, rate, delta)
            }
        }
}

/// The layer `before` cannot take its step: its affine transform of `input`
/// cannot be had, or it can, and a product of `errors` and `upstream` is no
/// row of the layer's outputs, or it is one and no step can be had from it
/// and the slope at the affine transform.
pub open spec fn step_fails<K: Reals>(
    k: &K,
    before: LayerView,
    input: MatrixView,
    errors: MatrixView,
    upstream: MatrixView,
    rate: u64,
) -> bool {
    ||| affine_fails(k, before, input)
    ||| exists|linear: MatrixView, slope: MatrixView, carried: MatrixView|
        #![trigger differentiated(k, linear, slope), product_of(k, errors, upstream, carried)]
        {
            &&& affine_of(k, before, input, linear)
            &&& differentiated(k, linear, slope)
            &&& product_of(k, errors, upstream, carried)
            &&& {
                ||| !carried.is_row(before.outputs())
                ||| delta_fails(k, before, input, rate, carried, slope)
            }
        }
}

/// One step of `rate` down the gradient of `layer`: the layer after the
/// step, and the error that the layer hands to the one before it. `None`
/// where the step cannot be had, because the arithmetic returned a matrix
/// of another shape than an operation has.
pub(crate) fn step<K: Reals>(
    k: &K,
    layer: &Layer,
    input: &Matrix,
    errors: &Matrix,
    upstream: &Matrix,
    rate: u64,
) -> (r: Option<(Layer, Matrix)>)
    requires
        input@.is_row(layer@.inputs()),
        errors@.rows == 1,
        errors@.cols == upstream@.rows,
        upstream@.cols == layer@.outputs(),
    ensures
        match r {
            Some((after, delta)) => stepped(
                k,
                layer@,
                input@,
                errors@,
                upstream@,
                rate,
                after@,
                delta@,
            ),
            None => step_fails(k, layer@, input@, errors@, upstream@, rate),
        },
{
    let linear = match affine(k, layer, input) {
        Some(linear) => linear,
        None => {
            return None;
        },
    };
    let slope = derivative(k, &linear);
    assert(affine_of(k, layer@, input@, linear@));
    assert(differentiated(k, linear@, slope@));
    let carried = match product(k, errors, upstream) {
        Some(carried) => carried,
        None => {
            return None;
        },
    };
    assert(product_of(k, errors@, upstream@, carried@));
    let delta = match hadamard(k, &carried, &slope) {
        Some(delta) => delta,
        None => {
            assert(delta_fails(k, layer@, input@, rate, carried@, slope@));
            return None;
        },
    };
    assert(hadamard_of(k, carried@, slope@, delta@));
    let turned = input.transpose();
    let gradient = match product(k, &turned, &delta) {
        Some(gradient) => gradient,
        None => {
            assert(gradient_fails(k, layer@, input@, rate, delta@));
            assert(delta_fails(k, layer@, input@, rate, carried@, slope@));
            return None;
        },
    };
    assert(product_of(k, input@.transposed(), delta@, gradient@));
    let wages = match descend(k, layer.wages(), rate, &gradient) {
        Some(wages) => wages,
        None => {
            assert(descent_fails(k, layer@, rate, gradient@, delta@));
            assert(gradient_fails(k, layer@, input@, rate, delta@));
            assert(delta_fails(k, layer@, input@, rate, carried@, slope@));
            return None;
        },
    };
    assert(descend_of(k, layer@.wages, rate, gradient@, wages@));
    let bias = match descend(k, layer.bias(), rate, &delta) {
        Some(bias) => bias,
        None => {
            assert(descent_fails(k, layer@, rate, gradient@, delta@));
            assert(gradient_fails(k, layer@, input@, rate, delta@));
            assert(delta_fails(k, layer@, input@, rate, carried@, slope@));
            return None;
        },
    };
    let after = Layer::new(wages, bias).unwrap();
    Some((after, delta))
}

/// The transform that carries the error of the layer after layer `i` back
/// to the output of layer `i`: the identity for the last layer, else the
/// transposed weights of the layer after it.
pub open spec fn upstream_of(net: Seq<LayerView>, i: int) -> MatrixView {
    if i == net.len() - 1 {
        MatrixView::identity(net[i].outputs())
    } else {
        net[i + 1].wages.transposed()
    }
}

/// `after` is a result of one pass of `rate` back through the layers
/// `before`, from the last layer to the first, where `state` is the forward
/// pass and `errors` the error of its output: each layer takes one step
/// down its gradient, with the row that it was fed, the error that the
/// layer after it handed back, and the weights that the layer after it had
/// before its own step.
pub open spec fn backpropagated<K: Reals>(
    k: &K,
    before: Seq<LayerView>,
    state: Seq<MatrixView>,
    errors: MatrixView,
    rate: u64,
    after: Seq<LayerView>,
) -> bool {
    &&& after.len() == before.len()
    &&& exists|deltas: Seq<MatrixView>|
        {
            &&& #[trigger] deltas.len() == before.len() + 1
            &&& deltas[before.len() as int] == errors
            &&& forall|i: int|
                0 <= i < before.len() ==> stepped(
                    k,
                    before[i],
                    state[i],
                    deltas[i + 1],
                    upstream_of(before, i),
                    rate,
                    #[trigger] after[i],
                    deltas[i],
                )
        }
}

/// Layer `i` cannot take its step in a pass back through the layers
/// `before`, where `deltas[i + 1]` is the error that the layer after it
/// handed back.
pub open spec fn fails_at<K: Reals>(
    k: &K,
    before: Seq<LayerView>,
    state: Seq<MatrixView>,
    deltas: Seq<MatrixView>,
    rate: u64,
    i: int,
) -> bool {
    step_fails(k, before[i], state[i], deltas[i + 1], upstream_of(before, i), rate)
}

/// The pass of `rate` back through the layers `before` cannot be had: the
/// layers after some layer `i` have each taken their step, from the last on,
/// and layer `i` cannot take its own.
pub open spec fn backpropagation_fails<K: Reals>(
    k: &K,
    before: Seq<LayerView>,
    state: Seq<MatrixView>,
    errors: MatrixView,
    rate: u64,
) -> bool {
    exists|i: int, deltas: Seq<MatrixView>, after: Seq<LayerView>|
        #![trigger after.len(), fails_at(k, before, state, deltas, rate, i)]
        {
            &&& 0 <= i < before.len()
            &&& after.len() == before.len()
            &&& deltas.len() == before.len() + 1
            &&& deltas[before.len() as int] == errors
            &&& forall|j: int|
                i < j < before.len() ==> stepped(
                    k,
                    before[j],
                    state[j],
                    deltas[j + 1],
                    upstream_of(before, j),
                    rate,
                    #[trigger] after[j],
                    deltas[j],
                )
            &&& fails_at(k, before, state, deltas, rate, i)
        }
}

/// Whether two lists of layers have the same length and, layer by layer,
/// weights of the same shape.
pub open spec fn same_widths(a: Seq<LayerView>, b: Seq<LayerView>) -> bool {
    &&& a.len() == b.len()
    &&& forall|i: int| 0 <= i < a.len() ==> (#[trigger] a[i]).wages.same_shape(b[i].wages)
}

/// A pass back through the layers changes no shape.
pub proof fn backpropagated_keeps_widths<K: Reals>(
    k: &K,
    before: Seq<LayerView>,
    state: Seq<MatrixView>,
    errors: MatrixView,
    rate: u64,
    after: Seq<LayerView>,
)
    requires
        chained(before),
        backpropagated(k, before, state, errors, rate, after),
    ensures
        same_widths(after, before),
        chained(after),
{
    let deltas = choose|deltas: Seq<MatrixView>|
        {
            &&& #[trigger] deltas.len() == before.len() + 1
            &&& forall|i: int|
                0 <= i < before.len() ==> stepped(
                    k,
                    before[i],
                    state[i],
                    deltas[i + 1],
                    upstream_of(before, i),
                    rate,
                    #[trigger] after[i],
                    deltas[i],
                )
        };
    assert forall|i: int| 0 <= i < after.len() implies (#[trigger] after[i]).wages.same_shape(
        before[i].wages,
    ) && after[i].wf() by {
        assert(stepped(
            k,
            before[i],
            state[i],
            deltas[i + 1],
            upstream_of(before, i),
            rate,
            after[i],
            deltas[i],
        ));
    }
    assert forall|i: int| 0 <= i < after.len() - 1 implies (#[trigger] after[i]).outputs()
        == after[i + 1].inputs() by {
        assert(before[i].outputs() == before[i + 1].inputs());
        assert(after[i + 1].wages.same_shape(before[i + 1].wages));
    }
    assert forall|i: int| 0 <= i < after.len() implies (#[trigger] after[i]).inputs() > 0
        && after[i].outputs() > 0 by {
        assert(before[i].inputs() > 0);
    }
}

/// One pass of `rate` back through the layers of `net`, from the last to
/// the first. The identity that carries the error to the last layer is
/// refused where it cannot be addressed; the only other error is that of the
/// arithmetic, where a layer cannot take its step.
pub(crate) fn backpropagate<K: Reals>(
    k: &K,
    net: Network,
    state: &State,
    errors: Matrix,
    rate: u64,
) -> (r: Result<Network, Error>)
    requires
        state@.len() == net@.len() + 1,
        forall|i: int| 0 <= i < net@.len() ==> (#[trigger] state@[i]).is_row(net@[i].inputs()),
        errors@.is_row(net@.last().outputs()),
    ensures
        match r {
            Ok(after) => backpropagated(k, net@, state@, errors@, rate, after@),
            Err(e) => if errors@.cols * errors@.cols > usize::MAX {
                e == Error::TooLarge
            } else {
                e == Error::Arithmetic && backpropagation_fails(k, net@, state@, errors@, rate)
            },
        },
{
    let ghost before = net@;
    let mut layers = net.into_layers();
    let n = layers.len();
    let inputs = state.layers();
    let mut upstream = match Matrix::identity(errors.ncols()) {
        Some(upstream) => upstream,
        None => {
            return Err(Error::TooLarge);
        },
    };
    let ghost mut deltas: Seq<MatrixView> = Seq::new((n + 1) as nat, |j: int| errors@);
    let mut current = errors;
    let mut i: usize = n;
    proof {
        assert forall|j: int| 0 <= j <= n implies (#[trigger] inputs@[j])@ == state@[j] by {
            assert(matrix_views(inputs@)[j] == inputs@[j]@);
        }
        assert forall|j: int| 0 <= j < n implies (#[trigger] layers@[j])@ == before[j] by {
            assert(layer_views(layers@)[j] == layers@[j]@);
        }
    }
    while i > 0
        invariant
            i <= n,
            n == layers@.len() == before.len(),
            before == net@,
            chained(before),
            inputs@.len() == n + 1,
            forall|j: int| 0 <= j < n ==> (#[trigger] inputs@[j])@.is_row(before[j].inputs()),
            forall|j: int| 0 <= j <= n ==> (#[trigger] inputs@[j])@ == state@[j],
            deltas.len() == n + 1,
            deltas[n as int] == errors@,
            current@.rows == 1,
            current@.cols == upstream@.rows,
            current@ == deltas[i as int],
            i > 0 ==> upstream@ == upstream_of(before, i - 1),
            errors@.cols * errors@.cols <= usize::MAX,
            forall|j: int| 0 <= j < i ==> (#[trigger] layers@[j])@ == before[j],
            forall|j: int|
                0 <= j < n ==> (#[trigger] layers@[j])@.wf() && layers@[j]@.wages.same_shape(
                    before[j].wages,
                ),
            forall|j: int|
                i <= j < n ==> stepped(
                    k,
                    before[j],
                    state@[j],
                    deltas[j + 1],
                    upstream_of(before, j),
                    rate,
                    (#[trigger] layers@[j])@,
                    deltas[j],
                ),
        decreases i,
    {
        i -= 1;
        let turned = layers[i].wages().transpose();
        let (after, delta) = match step(k, &layers[i], &inputs[i], &current, &upstream, rate) {
            Some(stepped) => stepped,
            None => {
                proof {
                    let after = layer_views(layers@);
                    assert forall|j: int| i < j < before.len() implies stepped(
                        k,
                        before[j],
                        state@[j],
                        deltas[j + 1],
                        upstream_of(before, j),
                        rate,
                        #[trigger] after[j],
                        deltas[j],
                    ) by {
                        assert(after[j] == layers@[j]@);
                    }
                    assert(fails_at(k, before, state@, deltas, rate, i as int));
                    assert(after.len() == before.len());
                }
                return Err(Error::Arithmetic);
            },
        };
        proof {
            deltas = deltas.update(i as int, delta@);
        }
        layers.set(i, after);
        current = delta;
        upstream = turned;
    }
    proof {
        let views = layer_views(layers@);
        assert forall|j: int| 0 <= j < n implies (#[trigger] views[j]).wf()
            && views[j].wages.same_shape(before[j].wages) by {
            assert(views[j] == layers@[j]@);
        }
        assert forall|j: int| 0 <= j < n - 1 implies (#[trigger] views[j]).outputs() == views[j
            + 1].inputs() by {
            assert(before[j].outputs() == before[j + 1].inputs());
        }
        assert forall|j: int| 0 <= j < n implies (#[trigger] views[j]).inputs() > 0
            && views[j].outputs() > 0 by {
            assert(before[j].inputs() > 0);
        }
    }
    let after = Network::from_layers(layers).unwrap();
    proof {
        assert forall|j: int| 0 <= j < before.len() implies stepped(
            k,
            before[j],
            state@[j],
            deltas[j + 1],
            upstream_of(before, j),
            rate,
            #[trigger] after@[j],
            deltas[j],
        ) by {
            assert(after@[j] == layers@[j]@);
        }
    }
    Ok(after)
}

/// `after` is a result of training the layers `before` on one example at
/// the rate `rate`, and `errors` the error of that example: `errors` is the
/// error of the output of a forward pass on the example's vector against the
/// example's class, and `after` a result of the pass back through the layers
/// from that forward pass and that error.
pub open spec fn trained_on<K: Reals>(
    k: &K,
    before: Seq<LayerView>,
    class: usize,
    input: MatrixView,
    rate: u64,
    after: Seq<LayerView>,
    errors: MatrixView,
) -> bool {
    exists|state: Seq<MatrixView>|
        {
            &&& input.is_row(before[0].inputs())
            &&& #[trigger] evaluated(k, before, input, state)
            &&& errors_of(k, state.last(), class as nat, errors)
            &&& backpropagated(k, before, state, errors, rate, after)
        }
}

/// `after` is a result of training the layers `before` at the rate `rate`
/// on an example that `data` gives for the index `i`, and `next` the mean
/// squared error of the examples `0..=i`, where `mean` is that of the
/// examples before `i`: a result of the step of the mean from `mean`, over
/// `i` examples, by the sum of the squares of the example's error.
pub open spec fn example_at<K: Reals, D: Fn(usize) -> Data>(
    k: &K,
    data: &D,
    i: usize,
    before: Seq<LayerView>,
    rate: u64,
    after: Seq<LayerView>,
    mean: u64,
    next: u64,
) -> bool {
    exists|d: Data, errors: Matrix, squares: u64|
        {
            &&& #[trigger] call_ensures(*data, (i,), d)
            &&& trained_on(k, before, d.class, d.data@, rate, after, errors@)
            &&& #[trigger] call_ensures(K::square_sum, (k, &errors), squares)
            &&& call_ensures(K::mean_step, (k, mean, i, squares), next)
        }
}

/// `after` is a result of one epoch at the rate `rate` on the layers
/// `before`, and `error` the mean squared error of the epoch: the examples
/// of the indices `0..datalen` are taken one after the other, each on the
/// layers that the one before it left, and the mean starts at zero.
pub open spec fn epoch_of<K: Reals, D: Fn(usize) -> Data>(
    k: &K,
    data: &D,
    datalen: usize,
    before: Seq<LayerView>,
    rate: u64,
    after: Seq<LayerView>,
    error: u64,
) -> bool {
    exists|nets: Seq<Seq<LayerView>>, means: Seq<u64>|
        {
            &&& #[trigger] nets.len() == datalen + 1
            &&& #[trigger] means.len() == datalen + 1
            &&& nets[0] == before
            &&& nets[datalen as int] == after
            &&& means[0] == ZERO
            &&& means[datalen as int] == error
            &&& forall|i: usize|
                i < datalen ==> #[trigger] example_at(
                    k,
                    data,
                    i,
                    nets[i as int],
                    rate,
                    nets[i + 1],
                    means[i as int],
                    means[i + 1],
                )
        }
}

/// `after` is a result of the epoch `e` on the layers `before`, and `error`
/// its mean squared error: of one epoch at a rate that `rate` gives for `e`.
pub open spec fn epoch_at<K: Reals, R: Fn(usize) -> u64, D: Fn(usize) -> Data>(
    k: &K,
    rate: &R,
    data: &D,
    datalen: usize,
    e: usize,
    before: Seq<LayerView>,
    after: Seq<LayerView>,
    error: u64,
) -> bool {
    exists|r: u64|
        #[trigger] call_ensures(*rate, (e,), r) && epoch_of(
            k,
            data,
            datalen,
            before,
            r,
            after,
            error,
        )
}

/// `after` is a result of training the layers `before` for `epochs` epochs,
/// one after the other, each on the layers that the one before it left, and
/// `errors` holds the mean squared error of each epoch.
pub open spec fn learned<K: Reals, R: Fn(usize) -> u64, D: Fn(usize) -> Data>(
    k: &K,
    rate: &R,
    data: &D,
    datalen: usize,
    epochs: usize,
    before: Seq<LayerView>,
    after: Seq<LayerView>,
    errors: Seq<u64>,
) -> bool {
    &&& errors.len() == epochs
    &&& exists|nets: Seq<Seq<LayerView>>|
        {
            &&& #[trigger] nets.len() == epochs + 1
            &&& nets[0] == before
            &&& nets[epochs as int] == after
            &&& forall|e: usize|
                e < epochs ==> #[trigger] epoch_at(
                    k,
                    rate,
                    data,
                    datalen,
                    e,
                    nets[e as int],
                    nets[e + 1],
                    errors[e as int],
                )
        }
}

/// Training has come to the example of the index `i` in the epoch `e`: the
/// epochs before `e` are done, `r` is a rate that `rate` gives for `e`, the
/// examples before `i` have been taken in this epoch and have left the
/// layers `now`, and `d` is an example that `data` gives for `i`.
pub open spec fn reached<K: Reals, R: Fn(usize) -> u64, D: Fn(usize) -> Data>(
    k: &K,
    rate: &R,
    data: &D,
    datalen: usize,
    before: Seq<LayerView>,
    e: usize,
    i: usize,
    r: u64,
    d: Data,
    now: Seq<LayerView>,
) -> bool {
    exists|start: Seq<LayerView>, errors: Seq<u64>, mean: u64|
        #![trigger
            learned(k, rate, data, datalen, e, before, start, errors),
            epoch_of(k, data, i, start, r, now, mean),
        ]
        {
            &&& learned(k, rate, data, datalen, e, before, start, errors)
            &&& call_ensures(*rate, (e,), r)
            &&& epoch_of(k, data, i, start, r, now, mean)
            &&& call_ensures(*data, (i,), d)
        }
}

/// Training the layers `net` on an example ends with the error `fault`:
///
/// - a dimension mismatch, where the example's vector is not a single row
///   of as many entries as the layers have inputs;
/// - the error of the arithmetic, where the forward pass cannot be had, or
///   it can and the pass back from it and from the error of its output
///   cannot;
/// - too large, where the forward pass can be had and the identity that
///   carries the error to the last layer cannot be addressed.
pub open spec fn example_fails<K: Reals>(
    k: &K,
    net: Seq<LayerView>,
    class: usize,
    input: MatrixView,
    rate: u64,
    fault: Error,
) -> bool {
    let outputs = net.last().outputs();
    match fault {
        Error::DimensionMismatch => !input.is_row(net[0].inputs()),
        Error::Arithmetic => {
            &&& input.is_row(net[0].inputs())
            &&& {
                ||| eval_fails(k, net, input)
                ||| exists|state: Seq<MatrixView>, errors: MatrixView|
                    #![trigger
                        evaluated(k, net, input, state),
                        errors_of(k, state.last(), class as nat, errors),
                    ]
                    {
                        &&& evaluated(k, net, input, state)
                        &&& errors_of(k, state.last(), class as nat, errors)
                        &&& outputs * outputs <= usize::MAX
                        &&& backpropagation_fails(k, net, state, errors, rate)
                    }
            }
        },
        Error::TooLarge => {
            &&& input.is_row(net[0].inputs())
            &&& outputs * outputs > usize::MAX
            &&& exists|state: Seq<MatrixView>| #[trigger] evaluated(k, net, input, state)
        },
        _ => false,
    }
}

/// Training the layers `before` ends with the error `fault`: it has come to
/// an example of an epoch, and training on that example ends with `fault`.
pub open spec fn learning_stops<K: Reals, R: Fn(usize) -> u64, D: Fn(usize) -> Data>(
    k: &K,
    rate: &R,
    data: &D,
    datalen: usize,
    epochs: usize,
    before: Seq<LayerView>,
    fault: Error,
) -> bool {
    exists|e: usize, i: usize, r: u64, d: Data, now: Seq<LayerView>|
        #![trigger reached(k, rate, data, datalen, before, e, i, r, d, now)]
        {
            &&& e < epochs
            &&& i < datalen
            &&& reached(k, rate, data, datalen, before, e, i, r, d, now)
            &&& example_fails(k, now, d.class, d.data@, r, fault)
        }
}

/// Training for no epoch changes nothing and reports nothing.
pub proof fn no_epoch_no_change<K: Reals, R: Fn(usize) -> u64, D: Fn(usize) -> Data>(
    k: &K,
    rate: &R,
    data: &D,
    datalen: usize,
    before: Seq<LayerView>,
    after: Seq<LayerView>,
    errors: Seq<u64>,
)
    requires
        learned(k, rate, data, datalen, 0, before, after, errors),
    ensures
        after == before,
        errors.len() == 0,
{
}

/// Training on no example changes nothing, and the error of each epoch is
/// zero.
pub proof fn no_example_no_change<K: Reals, R: Fn(usize) -> u64, D: Fn(usize) -> Data>(
    k: &K,
    rate: &R,
    data: &D,
    epochs: usize,
    before: Seq<LayerView>,
    after: Seq<LayerView>,
    errors: Seq<u64>,
)
    requires
        learned(k, rate, data, 0, epochs, before, after, errors),
    ensures
        after == before,
        forall|e: int| 0 <= e < epochs ==> errors[e] == ZERO,
{
    let nets = choose|nets: Seq<Seq<LayerView>>|
        {
            &&& #[trigger] nets.len() == epochs + 1
            &&& nets[0] == before
            &&& nets[epochs as int] == after
            &&& forall|e: usize|
                e < epochs ==> #[trigger] epoch_at(
                    k,
                    rate,
                    data,
                    0,
                    e,
                    nets[e as int],
                    nets[e + 1],
                    errors[e as int],
                )
        };
    assert forall|e: int| 0 <= e < epochs implies nets[e + 1] == #[trigger] nets[e] by {
        let at = e as usize;
        assert(epoch_at(k, rate, data, 0, at, nets[at as int], nets[at + 1], errors[at as int]));
    }
    assert forall|e: int| 0 <= e < epochs implies #[trigger] errors[e] == ZERO by {
        let at = e as usize;
        assert(epoch_at(k, rate, data, 0, at, nets[at as int], nets[at + 1], errors[at as int]));
    }
    unchanged(nets, epochs as int);
}

/// Where each entry of a list is the one before it, each is the first.
proof fn unchanged<T>(list: Seq<T>, n: int)
    requires
        0 <= n < list.len(),
        forall|i: int| 0 <= i < n ==> list[i + 1] == #[trigger] list[i],
    ensures
        list[n] == list[0],
    decreases n,
{
    if n > 0 {
        unchanged(list, n - 1);
    }
}

/// One who trains a network: the network, the learning rate of each epoch,
/// the example of each index, and the number of examples of an epoch.
pub struct Trainer<'a, R, D> {
    /// The network that is trained.
    pub net: Network,
    /// The learning rate of each epoch.
    pub rate: &'a R,
    /// The example of each index.
    pub data: &'a D,
    /// The number of examples of an epoch.
    pub datalen: usize,
}

impl<'a, R: Fn(usize) -> u64, D: Fn(usize) -> Data> Trainer<'a, R, D> {
    /// The trainer of the given network, rates, examples and number of
    /// examples.
    pub fn new(net: Network, rate: &'a R, data: &'a D, datalen: usize) -> (t: Trainer<'a, R, D>)
        ensures
            t.net == net,
            t.rate == rate,
            t.data == data,
            t.datalen == datalen,
    {
        Trainer { net, rate, data, datalen }
    }

    /// Trains the network for `epochs` epochs and hands it back, with the
    /// mean squared error of each epoch. In each epoch the examples of the
    /// indices `0..datalen` are taken in order, and the network is trained on
    /// each at the rate of the epoch. An example whose vector is not a single
    /// row of as many entries as the network has inputs ends the training
    /// with an error, before any arithmetic on it. The other errors are
    /// that of the arithmetic, where the forward pass or the pass back
    /// cannot be had, and that of an identity that cannot be addressed.
    pub fn learn<K: Reals>(self, epochs: usize, k: &K) -> (r: Result<(Network, Vec<u64>), Error>)
        requires
            forall|e: usize| e < epochs ==> call_requires(*self.rate, (e,)),
            forall|i: usize| i < self.datalen ==> call_requires(*self.data, (i,)),
        ensures
            epochs == 0 || self.datalen == 0 ==> r.is_ok(),
            match r {
                Ok((net, errors)) => {
                    &&& learned(
                        k,
                        self.rate,
                        self.data,
                        self.datalen,
                        epochs,
                        self.net@,
                        net@,
                        errors@,
                    )
                    &&& same_widths(net@, self.net@)
                },
                Err(e) => {
                    &&& learning_stops(
                        k,
                        self.rate,
                        self.data,
                        self.datalen,
                        epochs,
                        self.net@,
                        e,
                    )
                    &&& match e {
                        Error::DimensionMismatch => exists|i: usize, d: Data|
                            {
                                &&& i < self.datalen
                                &&& #[trigger] call_ensures(*self.data, (i,), d)
                                &&& !d.data@.is_row(self.net@[0].inputs())
                            },
                        Error::TooLarge => self.net@.last().outputs()
                            * self.net@.last().outputs() > usize::MAX,
                        Error::Arithmetic => true,
                        _ => false,
                    }
                },
            },
    {
        let rate = self.rate;
        let data = self.data;
        let datalen = self.datalen;
        let mut net = self.net;
        let mut report: Vec<u64> = Vec::new();
        let ghost mut history: Seq<Seq<LayerView>> = seq![net@];
        let mut epoch: usize = 0;
        proof {
            use_type_invariant(&net);
        }
        while epoch < epochs
            invariant
                epoch <= epochs,
                datalen == self.datalen,
                data == self.data,
                rate == self.rate,
                chained(self.net@),
                same_widths(net@, self.net@),
                forall|e: usize| e < epochs ==> call_requires(*rate, (e,)),
                forall|i: usize| i < datalen ==> call_requires(*data, (i,)),
                history.len() == epoch + 1,
                report@.len() == epoch,
                history[0] == self.net@,
                history[epoch as int] == net@,
                forall|e: usize|
                    e < epoch ==> #[trigger] epoch_at(
                        k,
                        rate,
                        data,
                        datalen,
                        e,
                        history[e as int],
                        history[e + 1],
                        report@[e as int],
                    ),
            decreases epochs - epoch,
        {
            let r = rate(epoch);
            let mut error = ZERO;
            let ghost mut nets: Seq<Seq<LayerView>> = seq![net@];
            let ghost mut means: Seq<u64> = seq![ZERO];
            let mut it: usize = 0;
            while it < datalen
                invariant
                    it <= datalen,
                    epoch < epochs,
                    history.len() == epoch + 1,
                    report@.len() == epoch,
                    history[0] == self.net@,
                    rate == self.rate,
                    call_ensures(*rate, (epoch,), r),
                    forall|e: usize|
                        e < epoch ==> #[trigger] epoch_at(
                            k,
                            rate,
                            data,
                            datalen,
                            e,
                            history[e as int],
                            history[e + 1],
                            report@[e as int],
                        ),
                    datalen == self.datalen,
                    data == self.data,
                    chained(self.net@),
                    same_widths(net@, self.net@),
                    forall|i: usize| i < datalen ==> call_requires(*data, (i,)),
                    nets.len() == it + 1,
                    means.len() == it + 1,
                    nets[0] == history[epoch as int],
                    nets[it as int] == net@,
                    means[0] == ZERO,
                    means[it as int] == error,
                    forall|i: usize|
                        i < it ==> #[trigger] example_at(
                            k,
                            data,
                            i,
                            nets[i as int],
                            r,
                            nets[i + 1],
                            means[i as int],
                            means[i + 1],
                        ),
                decreases datalen - it,
            {
                let d = data(it);
                let ghost example = d;
                let ghost before = net@;
                let ghost mean = error;
                let class = d.class;
                proof {
                    assert(learned(
                        k,
                        rate,
                        data,
                        datalen,
                        epoch,
                        self.net@,
                        history[epoch as int],
                        report@,
                    ));
                    assert(epoch_of(k, data, it, history[epoch as int], r, before, mean));
                    assert(call_ensures(*data, (it,), example));
                    assert(reached(k, rate, data, datalen, self.net@, epoch, it, r, example, before));
                }
                let state = match net.eval(d.data, k) {
                    Ok(state) => state,
                    Err(e) => {
                        proof {
                            assert(net@[0].wages.same_shape(self.net@[0].wages));
                            assert(example_fails(k, before, example.class, example.data@, r, e));
                        }
                        return Err(e);
                    },
                };
                let errors = state.errors(class, k);
                let squares = k.square_sum(&errors);
                error = k.mean_step(error, it, squares);
                let ghost row = errors;
                proof {
                    use_type_invariant(&net);
                    pass_has_the_sizes(k, net@, example.data@, state@);
                }
                net =
                match backpropagate(k, net, &state, errors, r) {
                    Ok(net) => net,
                    Err(e) => {
                        proof {
                            let last = before.len() - 1;
                            assert(before[last].wages.same_shape(self.net@[last].wages));
                            assert(evaluated(k, before, example.data@, state@));
                            assert(errors_of(k, state@.last(), example.class as nat, row@));
                            assert(example_fails(k, before, example.class, example.data@, r, e));
                        }
                        return Err(e);
                    },
                };
                proof {
                    backpropagated_keeps_widths(k, before, state@, row@, r, net@);
                    assert(evaluated(k, before, example.data@, state@));
                    assert(trained_on(k, before, example.class, example.data@, r, net@, row@));
                    assert(call_ensures(*data, (it,), example));
                    assert(call_ensures(K::square_sum, (k, &row), squares));
                    assert(example_at(k, data, it, before, r, net@, mean, error));
                    nets = nets.push(net@);
                    means = means.push(error);
                }
                it += 1;
            }
            report.push(error);
            proof {
                assert(epoch_of(k, data, datalen, history[epoch as int], r, net@, error));
                assert(call_ensures(*rate, (epoch,), r));
                history = history.push(net@);
            }
            epoch += 1;
        }
        Ok((net, report))
    }
}

} // verus!
