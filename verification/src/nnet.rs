//! A feed-forward network of logistic layers: its construction, its forward
//! pass and the classification of the result.

use vstd::prelude::*;

use crate::matrix::{Matrix, MatrixView};
use crate::reals::{product, product_of, sum, sum_of, uniform, uniform_of, Reals};
use crate::scalar::{equal, greater, gt, is_nan, ZERO};

verus! {

/// Minus three hundred. At and below it the activation function and its
/// derivative are zero and the arithmetic is not asked.
pub const THRESHOLD: u64 = 0xc072_c000_0000_0000;

/// Why a network could not be built or used.
#[derive(Clone, Copy, Debug, PartialEq, Eq, Structural)]
pub enum Error {
    /// Fewer than two layer sizes were given.
    TooFewSizes,
    /// A layer size is zero.
    ZeroSize,
    /// Two adjacent layer sizes ask for a matrix of more entries than can be
    /// addressed.
    TooLarge,
    /// A vector is not a single row of as many entries as the network has
    /// inputs.
    DimensionMismatch,
    /// The arithmetic returned a matrix of another shape than the operation
    /// has.
    Arithmetic,
}

/// `y` is a value of the activation function at `x`: zero at and below the
/// threshold and where `x` is not a number, else a result of the logistic
/// function.
pub open spec fn sigmoid_of<K: Reals>(k: &K, x: u64, y: u64) -> bool {
    if greater(x, THRESHOLD) {
        call_ensures(K::logistic, (k, x), y)
    } else {
        y == ZERO
    }
}

/// `y` is a value of the activation function's derivative at `x`: zero at
/// and below the threshold and where `x` is not a number, else a result of
/// the logistic function's derivative.
pub open spec fn dsigmoid_of<K: Reals>(k: &K, x: u64, y: u64) -> bool {
    if greater(x, THRESHOLD) {
        call_ensures(K::logistic_slope, (k, x), y)
    } else {
        y == ZERO
    }
}

/// The activation function.
pub fn sigmoid<K: Reals>(k: &K, x: u64) -> (y: u64)
    ensures
        sigmoid_of(k, x, y),
{
    if gt(x, THRESHOLD) {
        k.logistic(x)
    } else {
        ZERO
    }
}

/// The derivative of the activation function.
pub fn dsigmoid<K: Reals>(k: &K, x: u64) -> (y: u64)
    ensures
        dsigmoid_of(k, x, y),
{
    if gt(x, THRESHOLD) {
        k.logistic_slope(x)
    } else {
        ZERO
    }
}

/// `y` has the shape of `x`, and each of its entries is a value of the
/// activation function at the entry of `x` in the same place.
pub open spec fn activated<K: Reals>(k: &K, x: MatrixView, y: MatrixView) -> bool {
    &&& y.same_shape(x)
    &&& y.cells.len() == x.cells.len()
    &&& forall|i: int| 0 <= i < x.cells.len() ==> sigmoid_of(k, x.cells[i], #[trigger] y.cells[i])
}

/// `y` has the shape of `x`, and each of its entries is a value of the
/// activation function's derivative at the entry of `x` in the same place.
pub open spec fn differentiated<K: Reals>(k: &K, x: MatrixView, y: MatrixView) -> bool {
    &&& y.same_shape(x)
    &&& y.cells.len() == x.cells.len()
    &&& forall|i: int| 0 <= i < x.cells.len() ==> dsigmoid_of(k, x.cells[i], #[trigger] y.cells[i])
}

/// The activation function applied to each entry of `x`.
pub fn activation<K: Reals>(k: &K, x: &Matrix) -> (y: Matrix)
    ensures
        activated(k, x@, y@),
        y@.wf(),
{
    let source = x.as_slice();
    let mut cells: Vec<u64> = Vec::new();
    let mut i: usize = 0;
    while i < source.len()
        invariant
            i <= source@.len(),
            cells@.len() == i,
            forall|j: int| 0 <= j < i ==> sigmoid_of(k, source@[j], #[trigger] cells@[j]),
        decreases source@.len() - i,
    {
        cells.push(sigmoid(k, source[i]));
        i += 1;
    }
    x.with_cells(cells)
}

/// The derivative of the activation function applied to each entry of `x`.
pub fn derivative<K: Reals>(k: &K, x: &Matrix) -> (y: Matrix)
    ensures
        differentiated(k, x@, y@),
        y@.wf(),
{
    let source = x.as_slice();
    let mut cells: Vec<u64> = Vec::new();
    let mut i: usize = 0;
    while i < source.len()
        invariant
            i <= source@.len(),
            cells@.len() == i,
            forall|j: int| 0 <= j < i ==> dsigmoid_of(k, source@[j], #[trigger] cells@[j]),
        decreases source@.len() - i,
    {
        cells.push(dsigmoid(k, source[i]));
        i += 1;
    }
    x.with_cells(cells)
}

/// What a `Layer` stands for.
pub struct LayerView {
    /// The weights: one row for each input, one column for each output.
    pub wages: MatrixView,
    /// The bias: a single row with one entry for each output.
    pub bias: MatrixView,
}

impl LayerView {
    /// The width of the vectors that the layer takes.
    pub open spec fn inputs(self) -> nat {
        self.wages.rows
    }

    /// The width of the vectors that the layer gives.
    pub open spec fn outputs(self) -> nat {
        self.wages.cols
    }

    /// Whether the bias is a single row that is as wide as the weights.
    pub open spec fn wf(self) -> bool {
        &&& self.wages.wf()
        &&& self.bias.wf()
        &&& self.bias.is_row(self.wages.cols)
    }
}

/// One layer of a network: an affine transform, followed by the activation
/// function.
#[derive(Debug)]
pub struct Layer {
    wages: Matrix,
    bias: Matrix,
}

impl View for Layer {
    type V = LayerView;

    closed spec fn view(&self) -> LayerView {
        LayerView { wages: self.wages@, bias: self.bias@ }
    }
}

impl Layer {
    #[verifier::type_invariant]
    spec fn inv(self) -> bool {
        self@.wf()
    }

    /// The layer of the given weights and bias; `None` unless the bias is a
    /// single row that is as wide as the weights.
    pub fn new(wages: Matrix, bias: Matrix) -> (r: Option<Layer>)
        ensures
            r.is_some() <==> bias@.is_row(wages@.cols),
            r matches Some(l) ==> l@ == (LayerView { wages: wages@, bias: bias@ }) && l@.wf(),
    {
        if bias.nrows() == 1 && bias.ncols() == wages.ncols() {
            Some(Layer { wages, bias })
        } else {
            None
        }
    }

    /// The weights.
    pub fn wages(&self) -> (m: &Matrix)
        ensures
            m@ == self@.wages,
            self@.wf(),
    {
        proof {
            use_type_invariant(self);
        }
        &self.wages
    }

    /// The bias.
    pub fn bias(&self) -> (m: &Matrix)
        ensures
            m@ == self@.bias,
            self@.wf(),
    {
        proof {
            use_type_invariant(self);
        }
        &self.bias
    }
}

/// `s` is a result of the affine transform of `layer` at the row `x`: of
/// the sum of the bias and a product of `x` and the weights.
pub open spec fn affine_of<K: Reals>(k: &K, layer: LayerView, x: MatrixView, s: MatrixView) -> bool {
    exists|p: MatrixView|
        {
            &&& #[trigger] product_of(k, x, layer.wages, p)
            &&& p.is_row(layer.outputs())
            &&& sum_of(k, p, layer.bias, s)
            &&& s.is_row(layer.outputs())
            &&& s.wf()
        }
}

/// `y` is an output of `layer` for the row `x`: the activation function
/// applied to each entry of a result of the layer's affine transform.
pub open spec fn feeds<K: Reals>(k: &K, layer: LayerView, x: MatrixView, y: MatrixView) -> bool {
    exists|s: MatrixView|
        {
            &&& #[trigger] affine_of(k, layer, x, s)
            &&& activated(k, s, y)
            &&& y.is_row(layer.outputs())
            &&& y.wf()
        }
}

/// The affine transform of `layer` at the row `x` cannot be had: a product
/// of `x` and the weights is no row of the layer's outputs, or it is one and
/// a sum of it and the bias is none.
pub open spec fn affine_fails<K: Reals>(k: &K, layer: LayerView, x: MatrixView) -> bool {
    exists|p: MatrixView|
        {
            &&& #[trigger] product_of(k, x, layer.wages, p)
            &&& {
                ||| !p.is_row(layer.outputs())
                ||| exists|s: MatrixView|
                    #[trigger] sum_of(k, p, layer.bias, s) && !s.is_row(layer.outputs())
            }
        }
}

/// The affine transform of `layer` at the row `x`: the sum of the bias and
/// the product of `x` and the weights. `None` where the arithmetic returned,
/// for the product or for the sum, a matrix of another shape than a row of
/// the layer's outputs.
pub(crate) fn affine<K: Reals>(k: &K, layer: &Layer, x: &Matrix) -> (r: Option<Matrix>)
    requires
        x@.is_row(layer@.inputs()),
    ensures
        match r {
            Some(s) => affine_of(k, layer@, x@, s@),
            None => affine_fails(k, layer@, x@),
        },
{
    let wages = layer.wages();
    let bias = layer.bias();
    match product(k, x, wages) {
        Some(p) => {
            assert(product_of(k, x@, layer@.wages, p@));
            match sum(k, &p, bias) {
                Some(s) => Some(s),
                None => None,
            }
        },
        None => None,
    }
}

/// The output of `layer` for the row `x`: the activation function applied
/// to each entry of the layer's affine transform of `x`. `None` where that
/// transform cannot be had.
pub(crate) fn forward<K: Reals>(k: &K, layer: &Layer, x: &Matrix) -> (r: Option<Matrix>)
    requires
        x@.is_row(layer@.inputs()),
    ensures
        match r {
            Some(y) => feeds(k, layer@, x@, y@),
            None => affine_fails(k, layer@, x@),
        },
{
    match affine(k, layer, x) {
        Some(s) => {
            let y = activation(k, &s);
            assert(affine_of(k, layer@, x@, s@));
            Some(y)
        },
        None => None,
    }
}

/// What a vector of layers stands for.
pub open spec fn layer_views(layers: Seq<Layer>) -> Seq<LayerView> {
    layers.map_values(|l: Layer| l@)
}

/// What a vector of matrices stands for.
pub open spec fn matrix_views(matrices: Seq<Matrix>) -> Seq<MatrixView> {
    matrices.map_values(|m: Matrix| m@)
}

/// Whether the layers make a network: there is at least one, every width is
/// positive, and each layer takes vectors of the width that the layer before
/// it gives.
pub open spec fn chained(net: Seq<LayerView>) -> bool {
    &&& net.len() >= 1
    &&& forall|i: int|
        0 <= i < net.len() ==> (#[trigger] net[i]).wf() && net[i].inputs() > 0 && net[i].outputs()
            > 0
    &&& forall|i: int|
        0 <= i < net.len() - 1 ==> (#[trigger] net[i]).outputs() == net[i + 1].inputs()
}

/// The widths of a network: that of its input, then that of the output of
/// each layer.
pub open spec fn sizes(net: Seq<LayerView>) -> Seq<nat> {
    Seq::new(
        net.len() + 1,
        |i: int|
            if i == 0 {
                net[0].inputs()
            } else {
                net[i - 1].outputs()
            },
    )
}

/// Whether the layers have the shapes that the layer sizes `dims` ask for:
/// layer `i` has weights of `dims[i]` rows and `dims[i + 1]` columns and a
/// bias of one row and `dims[i + 1]` columns.
pub open spec fn built(dims: Seq<usize>, net: Seq<LayerView>) -> bool {
    &&& net.len() == dims.len() - 1
    &&& forall|i: int|
        0 <= i < net.len() ==> {
            &&& (#[trigger] net[i]).wf()
            &&& net[i].wages.rows == dims[i]
            &&& net[i].wages.cols == dims[i + 1]
        }
}

/// Whether a matrix of `rows` by `cols` entries can be addressed.
pub open spec fn fits(rows: usize, cols: usize) -> bool {
    rows * cols <= usize::MAX
}

/// Whether none of the first `n` sizes is zero.
pub open spec fn positive(dims: Seq<usize>, n: int) -> bool {
    forall|i: int| 0 <= i < n ==> #[trigger] dims[i] != 0
}

/// Whether the weights of each of the first `n` layers can be addressed.
pub open spec fn addressable(dims: Seq<usize>, n: int) -> bool {
    forall|i: int| 0 <= i < n ==> fits(#[trigger] dims[i], dims[i + 1])
}

/// Why no network can be built from the layer sizes `dims`, or `None`
/// where one can: there are fewer than two sizes, or a size is zero, or the
/// weights of a layer cannot be addressed.
pub open spec fn config_fault(dims: Seq<usize>) -> Option<Error> {
    if dims.len() < 2 {
        Some(Error::TooFewSizes)
    } else if !positive(dims, dims.len() as int) {
        Some(Error::ZeroSize)
    } else if !addressable(dims, dims.len() - 1) {
        Some(Error::TooLarge)
    } else {
        None
    }
}

/// A network built from layer sizes has those sizes, and is a network.
pub proof fn built_is_chained(dims: Seq<usize>, net: Seq<LayerView>)
    requires
        config_fault(dims).is_none(),
        built(dims, net),
    ensures
        chained(net),
        sizes(net) =~= dims.map_values(|d: usize| d as nat),
{
    assert forall|i: int| 0 <= i < net.len() implies (#[trigger] net[i]).wf() && net[i].inputs()
        > 0 && net[i].outputs() > 0 by {
        assert(dims[i] != 0);
        assert(dims[i + 1] != 0);
    }
}

/// The state of an evaluation is a list of rows, each with an entry.
pub open spec fn state_wf(state: Seq<MatrixView>) -> bool {
    &&& state.len() >= 1
    &&& forall|i: int|
        0 <= i < state.len() ==> (#[trigger] state[i]).wf() && state[i].rows == 1 && state[i].cols
            >= 1
}

/// `state` is a result of the forward pass of `net` on `input`: it starts
/// with the input, and each further row is an output of the next layer for
/// the row before it.
pub open spec fn evaluated<K: Reals>(
    k: &K,
    net: Seq<LayerView>,
    input: MatrixView,
    state: Seq<MatrixView>,
) -> bool {
    &&& state.len() == net.len() + 1
    &&& state[0] == input
    &&& forall|i: int| 0 <= i < net.len() ==> feeds(k, net[i], state[i], #[trigger] state[i + 1])
}

/// The forward pass of `net` on `input` cannot be had: there are rows, the
/// input first and each further one an output of the next layer for the row
/// before it, that end before the last layer, because the affine transform
/// of the layer that is next cannot be had at the last of them.
pub open spec fn eval_fails<K: Reals>(k: &K, net: Seq<LayerView>, input: MatrixView) -> bool {
    exists|rows: Seq<MatrixView>|
        {
            &&& 1 <= #[trigger] rows.len() <= net.len()
            &&& rows[0] == input
            &&& forall|j: int|
                0 <= j < rows.len() - 1 ==> feeds(k, net[j], rows[j], #[trigger] rows[j + 1])
            &&& affine_fails(k, net[rows.len() - 1], rows.last())
        }
}

/// The index that leads among the entries `0..=n` of `cells` when they are
/// taken from left to right and an entry takes the lead only where it is
/// greater than the one that leads.
pub open spec fn leader(cells: Seq<u64>, n: nat) -> nat
    decreases n,
{
    if n == 0 {
        0
    } else {
        let before = leader(cells, (n - 1) as nat);
        if greater(cells[n as int], cells[before as int]) {
            n
        } else {
            before
        }
    }
}

/// Whether `c` is the first of the greatest among the entries `0..=n`:
/// none of them is greater than the entry at `c`, and the entry at `c` is
/// greater than every entry before it.
pub open spec fn first_maximum(cells: Seq<u64>, n: nat, c: nat) -> bool {
    &&& c <= n
    &&& forall|j: int| 0 <= j <= n ==> !greater(#[trigger] cells[j], cells[c as int])
    &&& forall|j: int| 0 <= j < c ==> greater(cells[c as int], #[trigger] cells[j])
}

/// Whether the entries `0..=n` are numbers.
pub open spec fn numbers(cells: Seq<u64>, n: nat) -> bool {
    forall|i: int| 0 <= i <= n ==> !is_nan(#[trigger] cells[i])
}

/// Where the entries `0..=n` are numbers, the one that leads is the first
/// of the greatest.
pub proof fn leader_is_first_maximum(cells: Seq<u64>, n: nat)
    requires
        n < cells.len(),
        numbers(cells, n),
    ensures
        first_maximum(cells, n, leader(cells, n)),
    decreases n,
{
    if n > 0 {
        leader_is_first_maximum(cells, (n - 1) as nat);
        let before = leader(cells, (n - 1) as nat);
        assert(!is_nan(cells[n as int]));
        assert(!is_nan(cells[before as int]));
        if greater(cells[n as int], cells[before as int]) {
            assert forall|j: int| 0 <= j < n implies greater(
                cells[n as int],
                #[trigger] cells[j],
            ) by {
                assert(!greater(cells[j], cells[before as int]));
                assert(!is_nan(cells[j]));
            }
        }
    }
}

/// Where two entries of a row are equal and greater than every other entry,
/// the one that leads the whole row is the one of the lower index.
pub proof fn tie_goes_to_the_lower_index(cells: Seq<u64>, i: int, j: int)
    requires
        0 <= i < j < cells.len(),
        equal(cells[i], cells[j]),
        forall|m: int|
            0 <= m < cells.len() && m != i && m != j ==> greater(cells[i], #[trigger] cells[m]),
    ensures
        leader(cells, (cells.len() - 1) as nat) == i,
{
    let n = (cells.len() - 1) as nat;
    assert forall|m: int| 0 <= m <= n implies !is_nan(#[trigger] cells[m]) by {
        if m != i && m != j {
            assert(greater(cells[i], cells[m]));
        }
    }
    leader_is_first_maximum(cells, n);
    assert(!greater(cells[i], cells[leader(cells, n) as int]));
    assert(!greater(cells[j], cells[leader(cells, n) as int]));
    let lead = leader(cells, n) as int;
    if lead < i {
        assert(greater(cells[i], cells[lead]));
    } else if lead > i {
        assert(greater(cells[lead], cells[i]));
        if lead != j {
            assert(greater(cells[i], cells[lead]));
        }
    }
}

/// Whether each operation of a forward pass has, for given operands, one
/// result.
pub open spec fn single_valued<K: Reals>(k: &K) -> bool {
    &&& forall|a: MatrixView, b: MatrixView, first: MatrixView, second: MatrixView|
        #![trigger product_of(k, a, b, first), product_of(k, a, b, second)]
        product_of(k, a, b, first) && product_of(k, a, b, second) ==> first == second
    &&& forall|a: MatrixView, b: MatrixView, first: MatrixView, second: MatrixView|
        #![trigger sum_of(k, a, b, first), sum_of(k, a, b, second)]
        sum_of(k, a, b, first) && sum_of(k, a, b, second) ==> first == second
    &&& forall|x: u64, first: u64, second: u64|
        #![trigger call_ensures(K::logistic, (k, x), first), call_ensures(K::logistic, (k, x), second)]
        call_ensures(K::logistic, (k, x), first) && call_ensures(K::logistic, (k, x), second) ==> first
            == second
}

/// Where each operation has one result, a layer has one output for a row.
pub proof fn layer_output_is_unique<K: Reals>(
    k: &K,
    layer: LayerView,
    x: MatrixView,
    first: MatrixView,
    second: MatrixView,
)
    requires
        single_valued(k),
        feeds(k, layer, x, first),
        feeds(k, layer, x, second),
    ensures
        first == second,
{
    let sum_of_first = choose|s: MatrixView| #[trigger]
        affine_of(k, layer, x, s) && activated(k, s, first) && first.wf();
    let sum_of_second = choose|s: MatrixView| #[trigger]
        affine_of(k, layer, x, s) && activated(k, s, second) && second.wf();
    let left = choose|p: MatrixView| #[trigger]
        product_of(k, x, layer.wages, p) && sum_of(k, p, layer.bias, sum_of_first);
    let right = choose|p: MatrixView| #[trigger]
        product_of(k, x, layer.wages, p) && sum_of(k, p, layer.bias, sum_of_second);
    assert(left == right);
    assert(sum_of_first == sum_of_second);
    assert forall|i: int| 0 <= i < first.cells.len() implies first.cells[i] == second.cells[i] by {
        assert(sigmoid_of(k, sum_of_first.cells[i], first.cells[i]));
        assert(sigmoid_of(k, sum_of_first.cells[i], second.cells[i]));
    }
    assert(first.cells =~= second.cells);
}

/// The forward pass is deterministic: where each operation of the
/// arithmetic has one result for given operands, the forward pass of a
/// network on an input has one result.
pub proof fn eval_is_deterministic<K: Reals>(
    k: &K,
    net: Seq<LayerView>,
    input: MatrixView,
    first: Seq<MatrixView>,
    second: Seq<MatrixView>,
)
    requires
        single_valued(k),
        evaluated(k, net, input, first),
        evaluated(k, net, input, second),
    ensures
        first == second,
{
    assert forall|i: int| 0 <= i < first.len() implies first[i] == second[i] by {
        rows_agree(k, net, input, first, second, i);
    }
    assert(first =~= second);
}

/// Two results of a forward pass agree in row `i`.
proof fn rows_agree<K: Reals>(
    k: &K,
    net: Seq<LayerView>,
    input: MatrixView,
    first: Seq<MatrixView>,
    second: Seq<MatrixView>,
    i: int,
)
    requires
        single_valued(k),
        evaluated(k, net, input, first),
        evaluated(k, net, input, second),
        0 <= i <= net.len(),
    ensures
        first[i] == second[i],
    decreases i,
{
    if i > 0 {
        rows_agree(k, net, input, first, second, i - 1);
        assert(feeds(k, net[i - 1], first[i - 1], first[i - 1 + 1]));
        assert(feeds(k, net[i - 1], second[i - 1], second[i - 1 + 1]));
        layer_output_is_unique(k, net[i - 1], first[i - 1], first[i], second[i]);
    }
}

/// The rows of a forward pass have the widths of the network: row `i` is as
/// wide as the size `i`, so the input is as wide as the first size and the
/// output as wide as the last.
pub proof fn pass_has_the_sizes<K: Reals>(
    k: &K,
    net: Seq<LayerView>,
    input: MatrixView,
    state: Seq<MatrixView>,
)
    requires
        chained(net),
        input.is_row(net[0].inputs()),
        evaluated(k, net, input, state),
    ensures
        state.len() == sizes(net).len(),
        forall|i: int| 0 <= i < state.len() ==> (#[trigger] state[i]).is_row(sizes(net)[i]),
        forall|i: int| 0 <= i < net.len() ==> (#[trigger] state[i]).is_row(net[i].inputs()),
        state.last().is_row(net.last().outputs()),
{
    assert forall|i: int| 0 <= i < state.len() implies (#[trigger] state[i]).is_row(
        sizes(net)[i],
    ) by {
        if i > 0 {
            assert(feeds(k, net[i - 1], state[i - 1], state[i - 1 + 1]));
        }
    }
    assert forall|i: int| 0 <= i < net.len() implies (#[trigger] state[i]).is_row(
        net[i].inputs(),
    ) by {
        assert(state[i].is_row(sizes(net)[i]));
        if i > 0 {
            assert(net[i - 1].outputs() == net[i - 1 + 1].inputs());
        }
    }
    assert(state[net.len() as int].is_row(sizes(net)[net.len() as int]));
}

/// `e` is a result of the error of the output row `out` against the class
/// `class`: a row as wide as `out` that holds a result of `x - 1` for the
/// entry `x` at the class and the entries of `out` elsewhere.
pub open spec fn errors_of<K: Reals>(k: &K, out: MatrixView, class: nat, e: MatrixView) -> bool {
    &&& e.is_row(out.cols)
    &&& e.cells.len() == out.cols
    &&& forall|i: int|
        0 <= i < out.cols ==> if i == class {
            call_ensures(K::less_one, (k, out.cells[i]), #[trigger] e.cells[i])
        } else {
            e.cells[i] == out.cells[i]
        }
}

/// `m` has the shape of `u`, and each of its entries is a result of
/// spreading the entry of `u` in the same place over the interval of width
/// `scale` around zero.
pub open spec fn spread_over<K: Reals>(k: &K, scale: u64, u: MatrixView, m: MatrixView) -> bool {
    &&& m.same_shape(u)
    &&& m.cells.len() == u.cells.len()
    &&& forall|i: int|
        0 <= i < u.cells.len() ==> call_ensures(
            K::spread,
            (k, u.cells[i], scale),
            #[trigger] m.cells[i],
        )
}

/// `m` is a result of drawing a matrix of `rows` by `cols` entries from the
/// interval of width `scale` around zero: of spreading each entry of a
/// matrix drawn from the unit interval.
pub open spec fn drawn<K: Reals>(k: &K, rows: usize, cols: usize, scale: u64, m: MatrixView) -> bool {
    exists|u: MatrixView|
        {
            &&& #[trigger] uniform_of(k, rows, cols, u)
            &&& u.rows == rows
            &&& u.cols == cols
            &&& spread_over(k, scale, u, m)
            &&& m.wf()
        }
}

/// No matrix of `rows` by `cols` entries can be had from a draw: a matrix
/// that was drawn has another shape.
pub open spec fn draw_fails<K: Reals>(k: &K, rows: usize, cols: usize) -> bool {
    exists|u: MatrixView| #[trigger] uniform_of(k, rows, cols, u) && !(u.rows == rows && u.cols == cols)
}

/// Layer `i` of the layer sizes `dims` cannot be drawn: no matrix can be
/// had from a draw for its weights, or none for its bias.
pub open spec fn layer_draw_fails<K: Reals>(k: &K, dims: Seq<usize>, i: int) -> bool {
    draw_fails(k, dims[i], dims[i + 1]) || draw_fails(k, 1, dims[i + 1])
}

/// A matrix of `rows` by `cols` entries drawn from the interval of width
/// `scale` around zero: each entry of a matrix drawn from the unit interval,
/// spread over that interval. `None` where the arithmetic drew a matrix of
/// another shape.
pub fn random<K: Reals>(k: &K, rows: usize, cols: usize, scale: u64) -> (r: Option<Matrix>)
    ensures
        match r {
            Some(m) => drawn(k, rows, cols, scale, m@),
            None => draw_fails(k, rows, cols),
        },
{
    let u = match uniform(k, rows, cols) {
        Some(u) => u,
        None => {
            return None;
        },
    };
    let source = u.as_slice();
    let mut cells: Vec<u64> = Vec::new();
    let mut i: usize = 0;
    while i < source.len()
        invariant
            i <= source@.len(),
            cells@.len() == i,
            forall|j: int|
                0 <= j < i ==> call_ensures(K::spread, (k, source@[j], scale), #[trigger] cells@[j]),
        decreases source@.len() - i,
    {
        cells.push(k.spread(source[i], scale));
        i += 1;
    }
    let m = u.with_cells(cells);
    assert(uniform_of(k, rows, cols, u@));
    Some(m)
}

/// A network: layers that are applied one after the other.
#[derive(Debug)]
pub struct Network {
    layers: Vec<Layer>,
}

impl View for Network {
    type V = Seq<LayerView>;

    closed spec fn view(&self) -> Seq<LayerView> {
        layer_views(self.layers@)
    }
}

/// The activations of one forward pass: the input, then the output of each
/// layer.
#[derive(Debug)]
pub struct State {
    layers: Vec<Matrix>,
}

impl View for State {
    type V = Seq<MatrixView>;

    closed spec fn view(&self) -> Seq<MatrixView> {
        matrix_views(self.layers@)
    }
}

impl State {
    #[verifier::type_invariant]
    spec fn inv(self) -> bool {
        state_wf(self@)
    }

    /// The state of the given rows, the input first; `None` unless there is
    /// a row and each matrix is a single row with an entry.
    pub fn new(layers: Vec<Matrix>) -> (r: Option<State>)
        ensures
            r.is_some() <==> state_wf(matrix_views(layers@)),
            r matches Some(state) ==> state@ == matrix_views(layers@),
    {
        if layers.len() == 0 {
            return None;
        }
        let mut i: usize = 0;
        while i < layers.len()
            invariant
                i <= layers@.len(),
                forall|j: int|
                    0 <= j < i ==> (#[trigger] layers@[j])@.wf() && layers@[j]@.rows == 1
                        && layers@[j]@.cols >= 1,
            decreases layers@.len() - i,
        {
            if layers[i].nrows() != 1 || layers[i].ncols() == 0 {
                assert(matrix_views(layers@)[i as int] == layers@[i as int]@);
                return None;
            }
            i += 1;
        }
        Some(State { layers })
    }

    /// The rows, the input first.
    pub fn layers(&self) -> (layers: &[Matrix])
        ensures
            matrix_views(layers@) == self@,
            state_wf(self@),
    {
        proof {
            use_type_invariant(self);
        }
        self.layers.as_slice()
    }

    /// The last row: the output of the network.
    pub fn output(&self) -> (out: &Matrix)
        ensures
            out@ == self@.last(),
            state_wf(self@),
    {
        proof {
            use_type_invariant(self);
        }
        &self.layers[self.layers.len() - 1]
    }

    /// The class that the output stands for: the index of its greatest
    /// entry, and of the first of them where several are as great. The
    /// entries are taken from left to right, and one takes the lead only
    /// where it is greater than the one that leads; so an entry that is not
    /// a number never takes the lead, and keeps it if it is the first.
    pub fn class(&self) -> (c: usize)
        ensures
            c == leader(self@.last().cells, (self@.last().cols - 1) as nat),
            c < self@.last().cols,
            numbers(self@.last().cells, (self@.last().cols - 1) as nat) ==> first_maximum(
                self@.last().cells,
                (self@.last().cols - 1) as nat,
                c as nat,
            ),
    {
        let output = self.output();
        let cells = output.as_slice();
        proof {
            let n = (cells@.len() - 1) as nat;
            if numbers(cells@, n) {
                leader_is_first_maximum(cells@, n);
            }
        }
        let mut best: usize = 0;
        let mut i: usize = 1;
        while i < cells.len()
            invariant
                1 <= i <= cells@.len(),
                best < i,
                best == leader(cells@, (i - 1) as nat),
            decreases cells@.len() - i,
        {
            if gt(cells[i], cells[best]) {
                best = i;
            }
            i += 1;
        }
        best
    }

    /// The error of the output against the class `class`: the output, less
    /// one at the class.
    pub fn errors<K: Reals>(&self, class: usize, k: &K) -> (e: Matrix)
        ensures
            errors_of(k, self@.last(), class as nat, e@),
            e@.wf(),
    {
        let output = self.output();
        let source = output.as_slice();
        let mut cells: Vec<u64> = Vec::new();
        let mut i: usize = 0;
        while i < source.len()
            invariant
                i <= source@.len(),
                cells@.len() == i,
                forall|j: int|
                    0 <= j < i ==> if j == class {
                        call_ensures(K::less_one, (k, source@[j]), #[trigger] cells@[j])
                    } else {
                        cells@[j] == source@[j]
                    },
            decreases source@.len() - i,
        {
            let x = source[i];
            if i == class {
                cells.push(k.less_one(x));
            } else {
                cells.push(x);
            }
            i += 1;
        }
        output.with_cells(cells)
    }
}

/// Whether one of the sizes is zero.
fn has_zero(dims: &[usize]) -> (found: bool)
    ensures
        found == !positive(dims@, dims@.len() as int),
{
    let mut i: usize = 0;
    while i < dims.len()
        invariant
            i <= dims@.len(),
            positive(dims@, i as int),
        decreases dims@.len() - i,
    {
        if dims[i] == 0 {
            return true;
        }
        i += 1;
    }
    false
}

/// Whether the weights of each layer can be addressed.
fn all_fit(dims: &[usize]) -> (all: bool)
    requires
        dims@.len() >= 2,
    ensures
        all == addressable(dims@, dims@.len() - 1),
{
    let mut i: usize = 0;
    while i < dims.len() - 1
        invariant
            dims@.len() >= 2,
            i <= dims@.len() - 1,
            addressable(dims@, i as int),
        decreases dims@.len() - 1 - i,
    {
        if dims[i].checked_mul(dims[i + 1]).is_none() {
            assert(!fits(dims@[i as int], dims@[i + 1]));
            return false;
        }
        i += 1;
    }
    true
}

impl Network {
    #[verifier::type_invariant]
    pub(crate) open spec fn inv(self) -> bool {
        chained(self@)
    }

    /// The network of the given layers; `None` unless they make a network.
    pub fn from_layers(layers: Vec<Layer>) -> (r: Option<Network>)
        ensures
            r.is_some() <==> chained(layer_views(layers@)),
            r matches Some(net) ==> net@ == layer_views(layers@),
    {
        let ghost views = layer_views(layers@);
        let n = layers.len();
        if n == 0 {
            return None;
        }
        let mut i: usize = 0;
        while i < n
            invariant
                i <= n,
                n == layers@.len(),
                views == layer_views(layers@),
                forall|j: int|
                    0 <= j < i ==> (#[trigger] views[j]).wf() && views[j].inputs() > 0
                        && views[j].outputs() > 0,
                forall|j: int|
                    0 <= j < i && j < n - 1 ==> (#[trigger] views[j]).outputs() == views[j
                        + 1].inputs(),
            decreases n - i,
        {
            let wages = layers[i].wages();
            assert(views[i as int] == layers@[i as int]@);
            if wages.nrows() == 0 || wages.ncols() == 0 {
                return None;
            }
            if i + 1 < n {
                let next = layers[i + 1].wages();
                assert(views[i + 1] == layers@[i + 1]@);
                if wages.ncols() != next.nrows() {
                    return None;
                }
            }
            i += 1;
        }
        Some(Network { layers })
    }

    /// The network of the layer sizes `dims` whose weights and biases all
    /// are `element`. Fewer than two sizes, a size of zero, and two adjacent
    /// sizes whose product cannot be addressed are refused.
    pub fn from_element(dims: &[usize], element: u64) -> (r: Result<Network, Error>)
        ensures
            match r {
                Ok(net) => {
                    &&& config_fault(dims@).is_none()
                    &&& built(dims@, net@)
                    &&& forall|i: int|
                        0 <= i < net@.len() ==> {
                            &&& (#[trigger] net@[i]).wages == MatrixView::filled(
                                dims@[i] as nat,
                                dims@[i + 1] as nat,
                                element,
                            )
                            &&& net@[i].bias == MatrixView::filled(
                                1,
                                dims@[i + 1] as nat,
                                element,
                            )
                        }
                },
                Err(e) => config_fault(dims@) == Some(e),
            },
    {
        let n = dims.len();
        if n < 2 {
            return Err(Error::TooFewSizes);
        }
        if has_zero(dims) {
            return Err(Error::ZeroSize);
        }
        if !all_fit(dims) {
            return Err(Error::TooLarge);
        }
        let mut layers: Vec<Layer> = Vec::new();
        let mut i: usize = 0;
        while i < n - 1
            invariant
                2 <= n == dims@.len(),
                i <= n - 1,
                positive(dims@, n as int),
                addressable(dims@, n - 1),
                layers@.len() == i,
                forall|j: int|
                    0 <= j < i ==> {
                        &&& (#[trigger] layers@[j])@.wages == MatrixView::filled(
                            dims@[j] as nat,
                            dims@[j + 1] as nat,
                            element,
                        )
                        &&& layers@[j]@.bias == MatrixView::filled(
                            1,
                            dims@[j + 1] as nat,
                            element,
                        )
                    },
            decreases n - 1 - i,
        {
            assert(fits(dims@[i as int], dims@[i + 1]));
            assert(fits(1, dims@[i + 1])) by (nonlinear_arith);
            let wages = Matrix::from_element(dims[i], dims[i + 1], element).unwrap();
            let bias = Matrix::from_element(1, dims[i + 1], element).unwrap();
            layers.push(Layer { wages, bias });
            i += 1;
        }
        let net = Network { layers };
        proof {
            assert forall|j: int| 0 <= j < net@.len() implies {
                &&& (#[trigger] net@[j]).wf()
                &&& net@[j].wages.rows == dims@[j]
                &&& net@[j].wages.cols == dims@[j + 1]
                &&& net@[j].wages == MatrixView::filled(
                    dims@[j] as nat,
                    dims@[j + 1] as nat,
                    element,
                )
                &&& net@[j].bias == MatrixView::filled(1, dims@[j + 1] as nat, element)
            } by {
                assert(net@[j] == layers@[j]@);
            }
            built_is_chained(dims@, net@);
        }
        Ok(net)
    }

    /// The network of the layer sizes `dims` whose weights and biases are
    /// drawn from the interval of width `scale` around zero. Fewer than two
    /// sizes, a size of zero, and two adjacent sizes whose product cannot be
    /// addressed are refused. On sizes that are not refused the only error
    /// is that of the arithmetic, where a layer cannot be drawn.
    pub fn new_rand<K: Reals>(dims: &[usize], scale: u64, k: &K) -> (r: Result<Network, Error>)
        ensures
            match r {
                Ok(net) => {
                    &&& config_fault(dims@).is_none()
                    &&& built(dims@, net@)
                    &&& forall|i: int|
                        0 <= i < net@.len() ==> {
                            &&& drawn(k, dims@[i], dims@[i + 1], scale, (#[trigger] net@[i]).wages)
                            &&& drawn(k, 1, dims@[i + 1], scale, net@[i].bias)
                        }
                },
                Err(e) => match config_fault(dims@) {
                    Some(fault) => e == fault,
                    None => {
                        &&& e == Error::Arithmetic
                        &&& exists|i: int|
                            0 <= i < dims@.len() - 1 && #[trigger] layer_draw_fails(k, dims@, i)
                    },
                },
            },
    {
        let n = dims.len();
        if n < 2 {
            return Err(Error::TooFewSizes);
        }
        if has_zero(dims) {
            return Err(Error::ZeroSize);
        }
        if !all_fit(dims) {
            return Err(Error::TooLarge);
        }
        let mut layers: Vec<Layer> = Vec::new();
        let mut i: usize = 0;
        while i < n - 1
            invariant
                2 <= n == dims@.len(),
                i <= n - 1,
                positive(dims@, n as int),
                addressable(dims@, n - 1),
                layers@.len() == i,
                forall|j: int|
                    0 <= j < i ==> {
                        &&& drawn(k, dims@[j], dims@[j + 1], scale, (#[trigger] layers@[j])@.wages)
                        &&& drawn(k, 1, dims@[j + 1], scale, layers@[j]@.bias)
                        &&& layers@[j]@.wf()
                        &&& layers@[j]@.wages.rows == dims@[j]
                        &&& layers@[j]@.wages.cols == dims@[j + 1]
                    },
            decreases n - 1 - i,
        {
            let wages = match random(k, dims[i], dims[i + 1], scale) {
                Some(wages) => wages,
                None => {
                    assert(layer_draw_fails(k, dims@, i as int));
                    return Err(Error::Arithmetic);
                },
            };
            let bias = match random(k, 1, dims[i + 1], scale) {
                Some(bias) => bias,
                None => {
                    assert(layer_draw_fails(k, dims@, i as int));
                    return Err(Error::Arithmetic);
                },
            };
            layers.push(Layer { wages, bias });
            i += 1;
        }
        let net = Network { layers };
        proof {
            assert forall|j: int| 0 <= j < net@.len() implies {
                &&& (#[trigger] net@[j]).wf()
                &&& net@[j].wages.rows == dims@[j]
                &&& net@[j].wages.cols == dims@[j + 1]
                &&& drawn(k, dims@[j], dims@[j + 1], scale, net@[j].wages)
                &&& drawn(k, 1, dims@[j + 1], scale, net@[j].bias)
            } by {
                assert(net@[j] == layers@[j]@);
            }
            built_is_chained(dims@, net@);
        }
        Ok(net)
    }

    /// The layers, the first first, without the network around them.
    pub fn into_layers(self) -> (layers: Vec<Layer>)
        ensures
            layer_views(layers@) == self@,
            chained(self@),
    {
        proof {
            use_type_invariant(&self);
        }
        self.layers
    }

    /// The layers, the first first.
    pub fn layers(&self) -> (layers: &[Layer])
        ensures
            layer_views(layers@) == self@,
            chained(self@),
    {
        proof {
            use_type_invariant(self);
        }
        self.layers.as_slice()
    }

    /// The numbers of rows and of columns of the weights of each layer.
    pub fn info(&self) -> (shapes: Vec<(usize, usize)>)
        ensures
            shapes@.len() == self@.len(),
            forall|i: int|
                0 <= i < self@.len() ==> (#[trigger] shapes@[i]).0 == self@[i].inputs()
                    && shapes@[i].1 == self@[i].outputs(),
    {
        let mut shapes: Vec<(usize, usize)> = Vec::new();
        let mut i: usize = 0;
        while i < self.layers.len()
            invariant
                i <= self.layers@.len(),
                shapes@.len() == i,
                forall|j: int|
                    0 <= j < i ==> (#[trigger] shapes@[j]).0 == self@[j].inputs() && shapes@[j].1
                        == self@[j].outputs(),
            decreases self.layers@.len() - i,
        {
            let wages = self.layers[i].wages();
            assert(self@[i as int] == self.layers@[i as int]@);
            shapes.push((wages.nrows(), wages.ncols()));
            i += 1;
        }
        shapes
    }

    /// The forward pass: the input, followed by the output of each layer
    /// for the row before it. An input that is not a single row of as many
    /// entries as the network has inputs is refused before any arithmetic.
    /// On an input that is not refused the only error is that of the
    /// arithmetic, where the affine transform of a layer cannot be had.
    pub fn eval<K: Reals>(&self, input: Matrix, k: &K) -> (r: Result<State, Error>)
        ensures
            match r {
                Ok(state) => {
                    &&& input@.is_row(self@[0].inputs())
                    &&& evaluated(k, self@, input@, state@)
                    &&& state@.last().is_row(self@.last().outputs())
                },
                Err(e) => if input@.is_row(self@[0].inputs()) {
                    e == Error::Arithmetic && eval_fails(k, self@, input@)
                } else {
                    e == Error::DimensionMismatch
                },
            },
    {
        proof {
            use_type_invariant(self);
        }
        let n = self.layers.len();
        assert(self@[0] == self.layers@[0]@);
        if input.nrows() != 1 || input.ncols() != self.layers[0].wages().nrows() {
            return Err(Error::DimensionMismatch);
        }
        let mut layers: Vec<Matrix> = Vec::new();
        layers.push(input);
        let mut i: usize = 0;
        while i < n
            invariant
                i <= n,
                n == self.layers@.len(),
                chained(self@),
                self@ == layer_views(self.layers@),
                layers@.len() == i + 1,
                layers@[0]@ == input@,
                input@.is_row(self@[0].inputs()),
                state_wf(matrix_views(layers@)),
                i < n ==> layers@[i as int]@.cols == self@[i as int].inputs(),
                i > 0 ==> layers@[i as int]@.cols == self@[i - 1].outputs(),
                forall|j: int|
                    0 <= j < i ==> feeds(k, self@[j], layers@[j]@, (#[trigger] layers@[j + 1])@),
            decreases n - i,
        {
            let ghost before = layers@;
            assert(self@[i as int] == self.layers@[i as int]@);
            assert(matrix_views(layers@)[i as int] == layers@[i as int]@);
            let y = match forward(k, &self.layers[i], &layers[i]) {
                Some(y) => y,
                None => {
                    proof {
                        let rows = matrix_views(layers@);
                        assert(rows.len() == i + 1);
                        assert(rows.last() == layers@[i as int]@);
                        assert forall|j: int| 0 <= j < rows.len() - 1 implies feeds(
                            k,
                            self@[j],
                            rows[j],
                            #[trigger] rows[j + 1],
                        ) by {
                            assert(feeds(k, self@[j], layers@[j]@, layers@[j + 1]@));
                        }
                        assert(affine_fails(k, self@[rows.len() - 1], rows.last()));
                    }
                    return Err(Error::Arithmetic);
                },
            };
            layers.push(y);
            proof {
                assert forall|j: int| 0 <= j < layers@.len() implies (#[trigger] matrix_views(
                    layers@,
                )[j]).wf() && matrix_views(layers@)[j].rows == 1 && matrix_views(layers@)[j].cols
                    >= 1 by {
                    if j < before.len() {
                        assert(matrix_views(before)[j] == before[j]@);
                    }
                }
            }
            i += 1;
        }
        let state = State { layers };
        proof {
            assert forall|j: int| 0 <= j < self@.len() implies feeds(
                k,
                self@[j],
                state@[j],
                #[trigger] state@[j + 1],
            ) by {
                assert(feeds(k, self@[j], layers@[j]@, layers@[j + 1]@));
            }
        }
        Ok(state)
    }
}

} // verus!
