//! A network as bytes.
//!
//! The bytes are those that `bincode` gives, in its default configuration,
//! for the list of the layers, where a layer is its weights and then its
//! bias, and a matrix is its entries, column after column, then its number
//! of rows and its number of columns.

use vstd::prelude::*;

use crate::matrix::{Matrix, MatrixView};
use crate::nnet::{chained, layer_views, Layer, LayerView, Network};

verus! {

/// What `bincode` writes for a list of layers, or `None` where it reports
/// an error.
pub uninterp spec fn serialized(
    parts: Seq<((Seq<u64>, u64, u64), (Seq<u64>, u64, u64))>,
) -> Option<Seq<u8>>;

/// The list of layers that `bincode` reads from the start of `bytes`, or
/// `None` where it reports an error.
pub uninterp spec fn deserialized(bytes: Seq<u8>) -> Option<
    Seq<((Seq<u64>, u64, u64), (Seq<u64>, u64, u64))>,
>;

/// What a matrix in plain values stands for.
pub open spec fn plain_matrix(part: (Vec<u64>, u64, u64)) -> (Seq<u64>, u64, u64) {
    (part.0@, part.1, part.2)
}

/// What a list of layers in plain values stands for.
pub open spec fn plain(parts: Seq<((Vec<u64>, u64, u64), (Vec<u64>, u64, u64))>) -> Seq<
    ((Seq<u64>, u64, u64), (Seq<u64>, u64, u64)),
> {
    parts.map_values(
        |part: ((Vec<u64>, u64, u64), (Vec<u64>, u64, u64))|
            (plain_matrix(part.0), plain_matrix(part.1)),
    )
}

/// Calls `bincode::serialize_into` with a vector of bytes as the writer.
/// What is written depends on the value alone, so it has a name,
/// `serialized`. What `bincode` has written it reads back as the same value.
#[verifier::external_body]
fn serialize(parts: &Vec<((Vec<u64>, u64, u64), (Vec<u64>, u64, u64))>) -> (bytes: Option<Vec<u8>>)
    ensures
        bytes.is_some() == serialized(plain(parts@)).is_some(),
        bytes matches Some(b) ==> serialized(plain(parts@)) == Some(b@),
        bytes matches Some(b) ==> deserialized(b@) == Some(plain(parts@)),
{
    let mut bytes: Vec<u8> = Vec::new();
    match bincode::serialize_into(&mut bytes, parts) {
        Ok(()) => Some(bytes),
        Err(_) => None,
    }
}

/// Calls `bincode::deserialize_from` with the bytes as the reader. What is
/// read depends on the bytes alone, so it has a name, `deserialized`.
#[verifier::external_body]
fn deserialize(bytes: &[u8]) -> (parts: Option<Vec<((Vec<u64>, u64, u64), (Vec<u64>, u64, u64))>>)
    ensures
        parts.is_some() == deserialized(bytes@).is_some(),
        parts matches Some(p) ==> deserialized(bytes@) == Some(plain(p@)),
{
    bincode::deserialize_from(bytes).ok()
}

/// The matrix that is written as its entries, its number of rows and its
/// number of columns.
pub open spec fn matrix_of(part: (Seq<u64>, u64, u64)) -> MatrixView {
    MatrixView { rows: part.1 as nat, cols: part.2 as nat, cells: part.0 }
}

/// The layer that is written as its weights and its bias.
pub open spec fn layer_of(part: ((Seq<u64>, u64, u64), (Seq<u64>, u64, u64))) -> LayerView {
    LayerView { wages: matrix_of(part.0), bias: matrix_of(part.1) }
}

/// The layers that are written as `parts`.
pub open spec fn layers_of(parts: Seq<((Seq<u64>, u64, u64), (Seq<u64>, u64, u64))>) -> Seq<
    LayerView,
> {
    parts.map_values(|part: ((Seq<u64>, u64, u64), (Seq<u64>, u64, u64))| layer_of(part))
}

/// What a matrix is written as: its entries, its number of rows and its
/// number of columns.
pub open spec fn part_of(m: MatrixView) -> (Seq<u64>, u64, u64) {
    (m.cells, m.rows as u64, m.cols as u64)
}

/// What the layers are written as: each as its weights and its bias.
pub open spec fn parts_of(net: Seq<LayerView>) -> Seq<
    ((Seq<u64>, u64, u64), (Seq<u64>, u64, u64)),
> {
    net.map_values(|layer: LayerView| (part_of(layer.wages), part_of(layer.bias)))
}

/// The network that is read from `bytes`: the layers that `bincode` reads,
/// where it reads any and they make a network.
pub open spec fn restored(bytes: Seq<u8>) -> Option<Seq<LayerView>> {
    match deserialized(bytes) {
        Some(parts) => if chained(layers_of(parts)) {
            Some(layers_of(parts))
        } else {
            None
        },
        None => None,
    }
}

/// Whether a matrix in plain values has one entry for each pair of a row
/// and a column, and a row and a column at least.
pub open spec fn sound(part: (Seq<u64>, u64, u64)) -> bool {
    matrix_of(part).wf() && part.1 > 0 && part.2 > 0
}

/// What a matrix is written as.
fn matrix_to_part(m: &Matrix) -> (part: (Vec<u64>, u64, u64))
    ensures
        plain_matrix(part) == part_of(m@),
        matrix_of(plain_matrix(part)) == m@,
{
    let cells = vstd::slice::slice_to_vec(m.as_slice());
    (cells, m.nrows() as u64, m.ncols() as u64)
}

/// The matrix that is written as `part`; `None` unless it has one entry for
/// each pair of a row and a column, and a row and a column at least.
fn matrix_from_part(part: &(Vec<u64>, u64, u64)) -> (r: Option<Matrix>)
    ensures
        r.is_some() <==> sound(plain_matrix(*part)),
        r matches Some(m) ==> m@ == matrix_of(plain_matrix(*part)),
{
    let len = part.0.len();
    if part.1 == 0 || part.2 == 0 {
        return None;
    }
    if part.1 > len as u64 || part.2 > len as u64 {
        assert(part.1 * part.2 > len) by (nonlinear_arith)
            requires
                part.1 > 0,
                part.2 > 0,
                part.1 > len || part.2 > len,
        ;
        return None;
    }
    Matrix::new(part.1 as usize, part.2 as usize, part.0.clone())
}

/// The layer that is written as `part`; `None` unless both matrices are
/// sound and the bias is a single row that is as wide as the weights.
fn layer_from_part(part: &((Vec<u64>, u64, u64), (Vec<u64>, u64, u64))) -> (r: Option<Layer>)
    ensures
        r.is_some() <==> {
            &&& sound(plain_matrix(part.0))
            &&& sound(plain_matrix(part.1))
            &&& layer_of((plain_matrix(part.0), plain_matrix(part.1))).wf()
        },
        r matches Some(layer) ==> layer@ == layer_of((plain_matrix(part.0), plain_matrix(part.1))),
{
    let wages = match matrix_from_part(&part.0) {
        Some(wages) => wages,
        None => {
            return None;
        },
    };
    let bias = match matrix_from_part(&part.1) {
        Some(bias) => bias,
        None => {
            return None;
        },
    };
    Layer::new(wages, bias)
}

impl Network {
    /// The network of the layers that are given in plain values, each as
    /// its weights and its bias, a matrix as its entries, its number of rows
    /// and its number of columns; `None` unless the layers make a network.
    pub fn from_parts(parts: &Vec<((Vec<u64>, u64, u64), (Vec<u64>, u64, u64))>) -> (r: Option<
        Network,
    >)
        ensures
            r.is_some() <==> chained(layers_of(plain(parts@))),
            r matches Some(net) ==> net@ == layers_of(plain(parts@)),
    {
        let ghost views = layers_of(plain(parts@));
        let mut layers: Vec<Layer> = Vec::new();
        let mut i: usize = 0;
        while i < parts.len()
            invariant
                i <= parts@.len(),
                views == layers_of(plain(parts@)),
                layers@.len() == i,
                forall|j: int| 0 <= j < i ==> (#[trigger] layers@[j])@ == views[j],
            decreases parts@.len() - i,
        {
            let layer = match layer_from_part(&parts[i]) {
                Some(layer) => layer,
                None => {
                    assert(!(views[i as int].wf() && views[i as int].inputs() > 0
                        && views[i as int].outputs() > 0));
                    return None;
                },
            };
            layers.push(layer);
            i += 1;
        }
        assert(layer_views(layers@) =~= views);
        Network::from_layers(layers)
    }

    /// The layers in plain values.
    pub fn to_parts(&self) -> (parts: Vec<((Vec<u64>, u64, u64), (Vec<u64>, u64, u64))>)
        ensures
            plain(parts@) == parts_of(self@),
            layers_of(plain(parts@)) == self@,
            chained(self@),
    {
        let layers = self.layers();
        let mut parts: Vec<((Vec<u64>, u64, u64), (Vec<u64>, u64, u64))> = Vec::new();
        let mut i: usize = 0;
        while i < layers.len()
            invariant
                i <= layers@.len(),
                layer_views(layers@) == self@,
                parts@.len() == i,
                forall|j: int|
                    0 <= j < i ==> {
                        &&& (#[trigger] plain(parts@)[j]) == parts_of(self@)[j]
                        &&& layer_of(plain(parts@)[j]) == self@[j]
                    },
            decreases layers@.len() - i,
        {
            let ghost before = parts@;
            let wages = matrix_to_part(layers[i].wages());
            let bias = matrix_to_part(layers[i].bias());
            assert(self@[i as int] == layers@[i as int]@);
            parts.push((wages, bias));
            assert forall|j: int| 0 <= j < i + 1 implies {
                &&& (#[trigger] plain(parts@)[j]) == parts_of(self@)[j]
                &&& layer_of(plain(parts@)[j]) == self@[j]
            } by {
                if j < i {
                    assert(plain(before)[j] == parts_of(self@)[j]);
                }
            }
            i += 1;
        }
        assert(plain(parts@) =~= parts_of(self@));
        assert(layers_of(plain(parts@)) =~= self@);
        parts
    }

    /// The network that is stored in the bytes of a file; `None` where no
    /// list of layers can be read from them, or the layers make no network.
    pub fn from_file(content: &[u8]) -> (r: Option<Network>)
        ensures
            r.is_some() == restored(content@).is_some(),
            r matches Some(net) ==> restored(content@) == Some(net@),
    {
        match deserialize(content) {
            Some(parts) => Network::from_parts(&parts),
            None => None,
        }
    }

    /// The bytes to store the network in a file, from which `from_file`
    /// reads the same network; `None` where `bincode` reports an error.
    pub fn dump(&self) -> (r: Option<Vec<u8>>)
        ensures
            r.is_some() == serialized(parts_of(self@)).is_some(),
            r matches Some(bytes) ==> serialized(parts_of(self@)) == Some(bytes@),
            r matches Some(bytes) ==> restored(bytes@) == Some(self@),
    {
        let parts = self.to_parts();
        serialize(&parts)
    }
}

} // verus!
