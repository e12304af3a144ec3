//! The Verkle tree over polynomial commitments.
//!
//! Every node commits to a vector of `width` scalars through the polynomial
//! that interpolates it: a leaf group to `width` consecutive leaves, an inner
//! node to the encodings of the commitments of its `width` children.

use crate::curve::{encoding, map_commitment_to_field, Commitment, Point};
use crate::field::Scalar;
use crate::index_plan::{
    batch_fits, checked_pow, count_openings, create_index_for_proof, index_plan, is_tree_size,
    leaves_at, lemma_depth_unique, lemma_offsets_in, lemma_pow_step, opened_nodes, touched,
    tree_depth,
};
use crate::kzg::{
    commit_polynomial, commitment_of, generate_proof, interpolation, opening_accepted,
    opening_of, setup, setup_size, vector_to_polynomial, verify_proof, MAX_WIDTH,
};
use crate::opening_set::compact;
use crate::round_trip::lemma_proved_batch_is_in_order;
use crate::lagrange::{
    check_interpolation, check_vector, distinct_positions, full_degree, indexed, interpolates,
};
use kzg_commitment::KZGCommitment;
use vstd::arithmetic::div_mod::*;
use vstd::arithmetic::power::*;
use vstd::prelude::*;

verus! {

/// What can go wrong with a tree.
#[derive(Debug, Clone, Copy, PartialEq, Eq, Structural)]
pub enum VerkleTreeError {
    /// The leaves do not fill a tree of the width asked for.
    BuildError,
    /// A node could not be opened.
    ProofGenerateError,
    /// The tree has no root.
    EmptyTree,
}

/// One node: its commitment, and the polynomial committed to, with which the
/// commitment is opened.
#[derive(Debug, Clone)]
pub struct VerkleNode {
    pub(crate) commitment: Commitment,
    pub(crate) polynomial: Vec<Scalar>,
    pub(crate) children: bool,
}

/// A node as the contracts see it.
pub struct NodeView {
    pub commitment: Point,
    pub polynomial: Seq<nat>,
    pub children: bool,
}

impl View for VerkleNode {
    type V = NodeView;

    closed spec fn view(&self) -> NodeView {
        NodeView {
            commitment: self.commitment@,
            polynomial: self.polynomial.deep_view(),
            children: self.children,
        }
    }
}

impl DeepView for VerkleNode {
    type V = NodeView;

    open spec fn deep_view(&self) -> NodeView {
        self@
    }
}

/// The node that commits to `values`.
pub open spec fn node_over(kzg: KZGCommitment, values: Seq<nat>, children: bool) -> NodeView {
    NodeView {
        commitment: commitment_of(kzg, interpolation(values)),
        polynomial: interpolation(values),
        children,
    }
}

/// The encodings of the `width` nodes of `below` that start at `start`.
pub open spec fn encodings(below: Seq<NodeView>, start: int, width: nat) -> Seq<nat> {
    Seq::new(width, |j: int| encoding(below[start + j].commitment))
}

/// The vectors that the leaf groups over `data` commit to: group `p` to the
/// `width` leaves from `p * width` on.
pub open spec fn leaf_vectors(data: Seq<nat>, width: nat) -> Seq<Seq<nat>> {
    Seq::new(data.len() / width, |p: int| data.subrange(p * width, p * width + width))
}

/// The vectors that the nodes above `below` commit to: node `p` to the
/// encodings of the `width` nodes from `p * width` on.
pub open spec fn parent_vectors(below: Seq<NodeView>, width: nat) -> Seq<Seq<nat>> {
    Seq::new(below.len() / width, |p: int| encodings(below, p * width, width))
}

/// The backend interpolates through each of the vectors.
pub open spec fn all_interpolate(vectors: Seq<Seq<nat>>) -> bool {
    forall|p: int| 0 <= p < vectors.len() ==> interpolates(indexed(#[trigger] vectors[p]))
}

/// The layer of leaf groups over `data`: group `p` commits to the `width`
/// leaves from `p * width` on.
pub open spec fn leaf_layer(kzg: KZGCommitment, data: Seq<nat>, width: nat) -> Seq<NodeView> {
    Seq::new(
        data.len() / width,
        |p: int| node_over(kzg, data.subrange(p * width, p * width + width), false),
    )
}

/// The layer above `below`: node `p` commits to the encodings of the `width`
/// nodes from `p * width` on.
pub open spec fn layer_above(kzg: KZGCommitment, below: Seq<NodeView>, width: nat) -> Seq<
    NodeView,
> {
    Seq::new(
        below.len() / width,
        |p: int| node_over(kzg, encodings(below, p * width, width), true),
    )
}

/// The node over the scalars in `values`, where the backend interpolates
/// through them.
fn make_node(kzg: &KZGCommitment, values: &Vec<Scalar>, children: bool) -> (r: Option<VerkleNode>)
    requires
        values.len() <= setup_size(*kzg),
        values.len() <= MAX_WIDTH,
    ensures
        r is Some <==> interpolates(indexed(values.deep_view())),
        r is Some ==> r->0@ == node_over(*kzg, values.deep_view(), children),
        r is Some ==> r->0.polynomial.len() <= values.len(),
{
    if !check_vector(values) {
        return None;
    }
    let polynomial = vector_to_polynomial(values);
    let commitment = commit_polynomial(kzg, &polynomial);
    Some(VerkleNode { commitment, polynomial, children })
}

/// The leaf groups of a tree over `datas`.
pub(crate) fn create_leaf_nodes(kzg: &KZGCommitment, datas: &Vec<Scalar>, width: usize) -> (r:
    Option<Vec<VerkleNode>>)
    requires
        1 <= width <= setup_size(*kzg),
        width <= MAX_WIDTH,
        datas.len() % width == 0,
    ensures
        r is Some <==> all_interpolate(leaf_vectors(datas.deep_view(), width as nat)),
        r is Some ==> r->0.deep_view() == leaf_layer(*kzg, datas.deep_view(), width as nat),
        r is Some ==> forall|p: int|
            0 <= p < r->0.len() ==> (#[trigger] r->0[p]).polynomial.len() <= width,
{
    let ghost vectors = leaf_vectors(datas.deep_view(), width as nat);
    let groups: usize = datas.len() / width;
    let mut layer: Vec<VerkleNode> = Vec::new();
    let mut p: usize = 0;
    proof {
        vstd::arithmetic::div_mod::lemma_fundamental_div_mod(datas.len() as int, width as int);
    }
    while p < groups
        invariant
            1 <= width <= setup_size(*kzg),
            width <= MAX_WIDTH,
            groups == datas.len() / width,
            datas.len() == width * groups,
            vectors == leaf_vectors(datas.deep_view(), width as nat),
            forall|q: int| 0 <= q < p ==> interpolates(indexed(#[trigger] vectors[q])),
            p <= groups,
            layer.len() == p,
            forall|q: int|
                0 <= q < p ==> (#[trigger] layer[q])@ == node_over(
                    *kzg,
                    datas.deep_view().subrange(q * width, q * width + width),
                    false,
                ),
            forall|q: int| 0 <= q < p ==> (#[trigger] layer[q]).polynomial.len() <= width,
        decreases groups - p,
    {
        proof {
            assert(p * width + width <= width * groups) by (nonlinear_arith)
                requires
                    p < groups,
            ;
        }
        let start: usize = p * width;
        let mut values: Vec<Scalar> = Vec::new();
        let mut j: usize = 0;
        while j < width
            invariant
                start + width <= datas.len(),
                j <= width,
                values.len() == j,
                forall|i: int| 0 <= i < j ==> (#[trigger] values[i])@ == datas[start + i]@,
            decreases width - j,
        {
            values.push(datas[start + j]);
            j = j + 1;
        }
        proof {
            assert(values.deep_view() =~= datas.deep_view().subrange(
                start as int,
                start + width,
            ));
        }
        proof {
            assert(vectors[p as int] == values.deep_view());
        }
        match make_node(kzg, &values, false) {
            Some(node) => {
                layer.push(node);
            },
            None => {
                return None;
            },
        }
        p = p + 1;
    }
    proof {
        assert(layer.deep_view() =~= leaf_layer(*kzg, datas.deep_view(), width as nat));
    }
    Some(layer)
}

/// The layer above `nodes`.
pub(crate) fn build_layer(kzg: &KZGCommitment, nodes: &Vec<VerkleNode>, width: usize) -> (r:
    Option<Vec<VerkleNode>>)
    requires
        1 <= width <= setup_size(*kzg),
        width <= MAX_WIDTH,
        nodes.len() % width == 0,
    ensures
        r is Some <==> all_interpolate(parent_vectors(nodes.deep_view(), width as nat)),
        r is Some ==> r->0.deep_view() == layer_above(*kzg, nodes.deep_view(), width as nat),
        r is Some ==> forall|p: int|
            0 <= p < r->0.len() ==> (#[trigger] r->0[p]).polynomial.len() <= width,
{
    let ghost vectors = parent_vectors(nodes.deep_view(), width as nat);
    let groups: usize = nodes.len() / width;
    let mut layer: Vec<VerkleNode> = Vec::new();
    let mut p: usize = 0;
    proof {
        vstd::arithmetic::div_mod::lemma_fundamental_div_mod(nodes.len() as int, width as int);
    }
    while p < groups
        invariant
            1 <= width <= setup_size(*kzg),
            width <= MAX_WIDTH,
            groups == nodes.len() / width,
            nodes.len() == width * groups,
            vectors == parent_vectors(nodes.deep_view(), width as nat),
            forall|q: int| 0 <= q < p ==> interpolates(indexed(#[trigger] vectors[q])),
            p <= groups,
            layer.len() == p,
            forall|q: int|
                0 <= q < p ==> (#[trigger] layer[q])@ == node_over(
                    *kzg,
                    encodings(nodes.deep_view(), q * width, width as nat),
                    true,
                ),
            forall|q: int| 0 <= q < p ==> (#[trigger] layer[q]).polynomial.len() <= width,
        decreases groups - p,
    {
        proof {
            assert(p * width + width <= width * groups) by (nonlinear_arith)
                requires
                    p < groups,
            ;
        }
        let start: usize = p * width;
        let mut values: Vec<Scalar> = Vec::new();
        let mut j: usize = 0;
        while j < width
            invariant
                start + width <= nodes.len(),
                j <= width,
                values.len() == j,
                forall|i: int|
                    0 <= i < j ==> (#[trigger] values[i])@ == encoding(nodes[start + i]@.commitment),
            decreases width - j,
        {
            let value = map_commitment_to_field(&nodes[start + j].commitment);
            values.push(value);
            j = j + 1;
        }
        proof {
            assert(values.deep_view() =~= encodings(
                nodes.deep_view(),
                start as int,
                width as nat,
            ));
        }
        proof {
            assert(vectors[p as int] == values.deep_view());
        }
        match make_node(kzg, &values, true) {
            Some(node) => {
                layer.push(node);
            },
            None => {
                return None;
            },
        }
        p = p + 1;
    }
    proof {
        assert(layer.deep_view() =~= layer_above(*kzg, nodes.deep_view(), width as nat));
    }
    Some(layer)
}

/// Layer `k` of the tree of the given depth over `data`, the root being
/// layer 0: the leaf groups at the bottom, and above each layer the layer of
/// its parents.
pub open spec fn layer_at(
    kzg: KZGCommitment,
    data: Seq<nat>,
    width: nat,
    depth: nat,
    k: nat,
) -> Seq<NodeView>
    decreases depth - k,
{
    if k + 1 >= depth {
        leaf_layer(kzg, data, width)
    } else {
        layer_above(kzg, layer_at(kzg, data, width, depth, k + 1), width)
    }
}

/// The layers of the tree over `data`, root first.
pub open spec fn tree_layers(kzg: KZGCommitment, data: Seq<nat>, width: nat, depth: nat) -> Seq<
    Seq<NodeView>,
> {
    Seq::new(depth, |k: int| layer_at(kzg, data, width, depth, k as nat))
}

/// The vectors that the nodes of layer `k` commit to.
pub open spec fn vectors_at(
    kzg: KZGCommitment,
    data: Seq<nat>,
    width: nat,
    depth: nat,
    k: nat,
) -> Seq<Seq<nat>> {
    if k + 1 >= depth {
        leaf_vectors(data, width)
    } else {
        parent_vectors(layer_at(kzg, data, width, depth, k + 1), width)
    }
}

/// The backend interpolates through the vector of every node of the tree
/// over `data`.
pub open spec fn buildable(kzg: KZGCommitment, data: Seq<nat>, width: nat, depth: nat) -> bool {
    forall|k: nat| k < depth ==> all_interpolate(#[trigger] vectors_at(kzg, data, width, depth, k))
}

/// `tree` is the tree of the given width over `data`, made with `kzg`.
pub open spec fn built(tree: VerkleTree, kzg: KZGCommitment, data: Seq<nat>, width: nat) -> bool {
    &&& tree.spec_width() == width
    &&& tree.spec_setup() == kzg
    &&& is_tree_size(data.len(), width, tree.spec_depth())
    &&& tree.layers() == tree_layers(kzg, data, width, tree.spec_depth())
    &&& well_formed(tree.layers(), width, kzg)
}

/// What holds of the layers of every tree: layer `k` has `width^k` nodes,
/// every node above the last layer commits to the encodings of its children,
/// and every node of the last layer to what its polynomial interpolates.
pub open spec fn well_formed(layers: Seq<Seq<NodeView>>, width: nat, kzg: KZGCommitment) -> bool {
    &&& 2 <= width <= MAX_WIDTH
    &&& setup_size(kzg) >= width
    &&& layers.len() >= 1
    &&& forall|k: int|
        0 <= k < layers.len() ==> (#[trigger] layers[k]).len() == pow(width as int, k as nat)
    &&& forall|k: int|
        0 <= k < layers.len() - 1 ==> #[trigger] layers[k] == layer_above(
            kzg,
            layers[k + 1],
            width,
        )
    &&& forall|k: int, p: int|
        0 <= k < layers.len() && 0 <= p < layers[k].len() ==> (#[trigger] layers[k][p]).polynomial.len()
            <= width
    &&& forall|p: int|
        0 <= p < layers.last().len() ==> {
            &&& (#[trigger] layers.last()[p]).commitment == commitment_of(
                kzg,
                layers.last()[p].polynomial,
            )
            &&& !layers.last()[p].children
        }
}

/// The opening of one node: its commitment, the proof, and the opened child
/// positions, ascending, each with the value opened there.
#[derive(Debug, Clone)]
pub struct ProofNode {
    pub commitment: Commitment,
    pub proof: Commitment,
    pub point: Vec<(usize, Scalar)>,
}

/// The openings of a batch, one for each opened node.
#[derive(Debug, Clone)]
pub struct VerkleProof {
    pub proofs: Vec<ProofNode>,
}

/// An opening as the contracts see it.
pub struct OpeningView {
    pub commitment: Point,
    pub proof: Point,
    pub point: Seq<(usize, nat)>,
}

impl View for ProofNode {
    type V = OpeningView;

    open spec fn view(&self) -> OpeningView {
        OpeningView {
            commitment: self.commitment@,
            proof: self.proof@,
            point: self.point.deep_view(),
        }
    }
}

impl DeepView for ProofNode {
    type V = OpeningView;

    open spec fn deep_view(&self) -> OpeningView {
        self@
    }
}

/// The value that node `p` of layer `k` holds at child position `j`: the
/// encoding of that child's commitment, or in the last layer the leaf there.
pub open spec fn child_value(
    layers: Seq<Seq<NodeView>>,
    data: Seq<nat>,
    width: nat,
    k: int,
    p: int,
    j: int,
) -> nat {
    if k + 1 < layers.len() {
        encoding(layers[k + 1][p * width + j].commitment)
    } else {
        data[p * width + j]
    }
}

/// The positions to open at a node, each with the value the node holds there.
pub open spec fn opened_points(
    layers: Seq<Seq<NodeView>>,
    data: Seq<nat>,
    width: nat,
    k: int,
    p: int,
    positions: Seq<usize>,
) -> Seq<(usize, nat)> {
    Seq::new(
        positions.len(),
        |i: int| (positions[i], child_value(layers, data, width, k, p, positions[i] as int)),
    )
}

/// The backend's proof for opening a node at the given positions, if it
/// gives one.
pub open spec fn node_opening(
    kzg: KZGCommitment,
    layers: Seq<Seq<NodeView>>,
    data: Seq<nat>,
    width: nat,
    k: int,
    p: int,
    positions: Seq<usize>,
) -> Option<Point> {
    opening_of(kzg, layers[k][p].polynomial, opened_points(layers, data, width, k, p, positions))
}

/// The entry of a node in the opening set: nothing where no position is to
/// be opened, else its opening.
pub open spec fn opening_entry(
    kzg: KZGCommitment,
    layers: Seq<Seq<NodeView>>,
    data: Seq<nat>,
    width: nat,
    k: int,
    p: int,
    positions: Seq<usize>,
) -> Option<OpeningView> {
    if positions.len() == 0 {
        None
    } else {
        Some(
            OpeningView {
                commitment: layers[k][p].commitment,
                proof: node_opening(kzg, layers, data, width, k, p, positions)->0,
                point: opened_points(layers, data, width, k, p, positions),
            },
        )
    }
}

/// The entries of the nodes of layer `k`, by position.
pub open spec fn layer_openings(
    kzg: KZGCommitment,
    layers: Seq<Seq<NodeView>>,
    data: Seq<nat>,
    width: nat,
    plan: Seq<Seq<Seq<usize>>>,
    k: int,
) -> Seq<Option<OpeningView>> {
    Seq::new(
        layers[k].len(),
        |p: int| opening_entry(kzg, layers, data, width, k, p, plan[k][p]),
    )
}

/// The entries of the first `n` layers, layer after layer from the root.
pub open spec fn openings_upto(
    kzg: KZGCommitment,
    layers: Seq<Seq<NodeView>>,
    data: Seq<nat>,
    width: nat,
    plan: Seq<Seq<Seq<usize>>>,
    n: nat,
) -> Seq<Option<OpeningView>>
    decreases n,
{
    if n == 0 {
        Seq::empty()
    } else {
        openings_upto(kzg, layers, data, width, plan, (n - 1) as nat) + layer_openings(
            kzg,
            layers,
            data,
            width,
            plan,
            n - 1,
        )
    }
}

/// The backend opens the node at the given positions: it interpolates
/// through the points to open, the polynomial through them is zero or of
/// full degree, and the node's polynomial takes the values in them.
pub open spec fn node_opens(
    kzg: KZGCommitment,
    layers: Seq<Seq<NodeView>>,
    data: Seq<nat>,
    width: nat,
    k: int,
    p: int,
    positions: Seq<usize>,
) -> bool {
    &&& interpolates(opened_points(layers, data, width, k, p, positions))
    &&& full_degree(opened_points(layers, data, width, k, p, positions))
    &&& node_opening(kzg, layers, data, width, k, p, positions) is Some
}

/// The backend opens every node at which the plan asks for an opening.
pub open spec fn all_open(
    kzg: KZGCommitment,
    layers: Seq<Seq<NodeView>>,
    data: Seq<nat>,
    width: nat,
    plan: Seq<Seq<Seq<usize>>>,
) -> bool {
    forall|k: int, p: int|
        0 <= k < layers.len() && 0 <= p < layers[k].len() && plan[k][p].len() > 0
            ==> #[trigger] node_opens(kzg, layers, data, width, k, p, plan[k][p])
}

/// The positions of an opening ascend, without repeats, below `width`.
pub open spec fn positions_ok(points: Seq<(usize, nat)>, width: nat) -> bool {
    &&& forall|a: int, b: int| 0 <= a < b < points.len() ==> points[a].0 < points[b].0
    &&& forall|a: int| 0 <= a < points.len() ==> (#[trigger] points[a]).0 < width
}

/// The encodings of the commitments of `openings`.
pub open spec fn commitment_encodings(openings: Seq<OpeningView>) -> Seq<nat> {
    Seq::new(openings.len(), |i: int| encoding(openings[i].commitment))
}

/// The values that may be opened in a batch: the encoding of the commitment
/// of every opened node, and every claimed leaf.
pub open spec fn expected_values(openings: Seq<OpeningView>, leaves: Seq<nat>) -> Seq<nat> {
    commitment_encodings(openings) + leaves
}

/// Every value that the opening opens is among the expected ones.
pub open spec fn linked(opening: OpeningView, expected: Seq<nat>) -> bool {
    forall|i: int| 0 <= i < opening.point.len() ==> expected.contains((#[trigger] opening.point[i]).1)
}

/// What a batch proof must be, whatever the backend says of its openings:
/// there is an opening, the first is of the root, the tree's size is one a
/// tree can have and every index names a leaf, there are as many openings
/// as the plan opens nodes, their positions are in order, the backend can
/// interpolate through their points, and every opened value is the encoding
/// of an opened node's commitment or a claimed leaf.
pub open spec fn structure_ok(
    root: Point,
    entries: Seq<Option<OpeningView>>,
    width: nat,
    indices: Seq<usize>,
    depth: nat,
    leaves: Seq<nat>,
) -> bool {
    let openings = compact(entries);
    &&& openings.len() > 0
    &&& openings[0].commitment == root
    &&& 2 <= width <= MAX_WIDTH
    &&& depth >= 1
    &&& batch_fits(pow(width as int, depth) as nat, indices, width, depth)
    &&& pow(width as int, depth) <= usize::MAX
    &&& opened_nodes(index_plan(indices, width, depth)) == openings.len()
    &&& forall|i: int| 0 <= i < openings.len() ==> positions_ok((#[trigger] openings[i]).point, width)
    &&& forall|i: int| 0 <= i < openings.len() ==> interpolates((#[trigger] openings[i]).point)
    &&& forall|i: int|
        0 <= i < openings.len() ==> linked(#[trigger] openings[i], expected_values(openings, leaves))
}

/// The batch proof is in order and the backend accepts each of its
/// openings.
pub open spec fn accepted(
    kzg: KZGCommitment,
    root: Point,
    entries: Seq<Option<OpeningView>>,
    width: nat,
    indices: Seq<usize>,
    depth: nat,
    leaves: Seq<nat>,
) -> bool {
    &&& structure_ok(root, entries, width, indices, depth, leaves)
    &&& forall|i: int|
        0 <= i < compact(entries).len() ==> opening_accepted(
            kzg,
            (#[trigger] compact(entries)[i]).commitment,
            compact(entries)[i].point,
            compact(entries)[i].proof,
        )
}

/// The openings among `entries`, in their order.
fn present(entries: &Vec<Option<ProofNode>>) -> (openings: Vec<&ProofNode>)
    ensures
        openings.deep_view() == compact(entries.deep_view()),
{
    let ghost all = entries.deep_view();
    let mut openings: Vec<&ProofNode> = Vec::new();
    let mut i: usize = 0;
    proof {
        assert(all.take(0) =~= Seq::empty());
    }
    while i < entries.len()
        invariant
            all == entries.deep_view(),
            i <= entries.len(),
            openings.deep_view() == compact(all.take(i as int)),
        decreases entries.len() - i,
    {
        let ghost before = openings.deep_view();
        proof {
            assert(all.take(i + 1).drop_last() =~= all.take(i as int));
            assert(all.take(i + 1).last() == all[i as int]);
            assert(all[i as int] == entries[i as int].deep_view());
        }
        match &entries[i] {
            Some(opening) => {
                openings.push(opening);
                proof {
                    assert(openings.deep_view() =~= before.push(opening@));
                }
            },
            None => {},
        }
        i = i + 1;
    }
    proof {
        assert(all.take(entries.len() as int) =~= all);
    }
    openings
}

/// Whether the positions of `points` ascend below `width`.
fn positions_in_order(points: &Vec<(usize, Scalar)>, width: usize) -> (ok: bool)
    ensures
        ok == positions_ok(points.deep_view(), width as nat),
{
    let ghost view = points.deep_view();
    let mut i: usize = 0;
    while i < points.len()
        invariant
            view == points.deep_view(),
            i <= points.len(),
            forall|a: int| 0 <= a < i ==> (#[trigger] view[a]).0 < width,
            forall|a: int| 0 < a < i ==> view[a - 1].0 < (#[trigger] view[a]).0,
        decreases points.len() - i,
    {
        proof {
            assert(view[i as int] == points[i as int].deep_view());
            if i > 0 {
                assert(view[i - 1] == points[i - 1].deep_view());
            }
        }
        if points[i].0 >= width {
            return false;
        }
        if i > 0 && points[i - 1].0 >= points[i].0 {
            return false;
        }
        i = i + 1;
    }
    proof {
        assert forall|a: int, b: int| 0 <= a < b < view.len() implies view[a].0 < view[b].0 by {
            lemma_steps_ascend(view, a, b);
        }
    }
    true
}

/// Positions that ascend from each to the next ascend from each to every
/// later one.
proof fn lemma_steps_ascend(points: Seq<(usize, nat)>, a: int, b: int)
    requires
        0 <= a < b < points.len(),
        forall|c: int| 0 < c < points.len() ==> points[c - 1].0 < (#[trigger] points[c]).0,
    ensures
        points[a].0 < points[b].0,
    decreases b - a,
{
    if a + 1 < b {
        lemma_steps_ascend(points, a, b - 1);
    }
    assert(points[b - 1].0 < points[b].0);
}

/// Positions that ascend lie at or above their rank, so below `width` there
/// are at most `width` of them.
pub proof fn lemma_positions_bounded(points: Seq<(usize, nat)>, width: nat)
    requires
        positions_ok(points, width),
    ensures
        points.len() <= width,
        distinct_positions(points),
{
    if points.len() > 0 {
        lemma_position_at_least_rank(points, points.len() - 1);
        assert(points[points.len() - 1].0 < width);
    }
}

proof fn lemma_position_at_least_rank(points: Seq<(usize, nat)>, i: int)
    requires
        0 <= i < points.len(),
        forall|a: int, b: int| 0 <= a < b < points.len() ==> points[a].0 < points[b].0,
    ensures
        points[i].0 >= i,
    decreases i,
{
    if i > 0 {
        lemma_position_at_least_rank(points, i - 1);
        assert(points[i - 1].0 < points[i].0);
    }
}

/// The values that may be opened: the encodings of the commitments of
/// `openings`, then the claimed leaves.
fn collect_expected(openings: &Vec<&ProofNode>, data: &Vec<Scalar>) -> (expected: Vec<Scalar>)
    ensures
        expected.deep_view() == expected_values(openings.deep_view(), data.deep_view()),
{
    let mut expected: Vec<Scalar> = Vec::new();
    let mut i: usize = 0;
    while i < openings.len()
        invariant
            i <= openings.len(),
            expected.len() == i,
            forall|a: int|
                0 <= a < i ==> (#[trigger] expected[a])@ == encoding(openings[a].commitment@),
        decreases openings.len() - i,
    {
        let value = map_commitment_to_field(&openings[i].commitment);
        expected.push(value);
        i = i + 1;
    }
    let ghost count = openings.len();
    let mut j: usize = 0;
    while j < data.len()
        invariant
            j <= data.len(),
            count == openings.len(),
            expected.len() == count + j,
            forall|a: int|
                0 <= a < count ==> (#[trigger] expected[a])@ == encoding(openings[a].commitment@),
            forall|a: int| 0 <= a < j ==> (#[trigger] expected[count + a])@ == data[a]@,
        decreases data.len() - j,
    {
        expected.push(data[j]);
        j = j + 1;
    }
    proof {
        let want = expected_values(openings.deep_view(), data.deep_view());
        assert(expected.deep_view().len() == want.len());
        assert forall|a: int| 0 <= a < want.len() implies expected.deep_view()[a] == want[a] by {
            if a < count {
                assert(expected.deep_view()[a] == expected[a]@);
                assert(openings.deep_view()[a] == openings[a]@);
            } else {
                assert(expected.deep_view()[a] == expected[count + (a - count)]@);
            }
        }
        assert(expected.deep_view() =~= want);
    }
    expected
}

/// Whether `value` is among `values`.
fn holds_value(values: &Vec<Scalar>, value: &Scalar) -> (found: bool)
    ensures
        found == values.deep_view().contains(value@),
{
    let mut i: usize = 0;
    while i < values.len()
        invariant
            i <= values.len(),
            forall|a: int| 0 <= a < i ==> values.deep_view()[a] != value@,
        decreases values.len() - i,
    {
        proof {
            assert(values.deep_view()[i as int] == values[i as int]@);
        }
        if values[i] == *value {
            return true;
        }
        i = i + 1;
    }
    false
}

/// Whether every value that `opening` opens is among `expected`.
fn is_linked(opening: &ProofNode, expected: &Vec<Scalar>) -> (ok: bool)
    ensures
        ok == linked(opening@, expected.deep_view()),
{
    let mut i: usize = 0;
    while i < opening.point.len()
        invariant
            i <= opening.point.len(),
            forall|a: int|
                0 <= a < i ==> expected.deep_view().contains((#[trigger] opening@.point[a]).1),
        decreases opening.point.len() - i,
    {
        proof {
            assert(opening@.point[i as int] == opening.point[i as int].deep_view());
        }
        if !holds_value(expected, &opening.point[i].1) {
            return false;
        }
        i = i + 1;
    }
    true
}

/// A Verkle tree over polynomial commitments. It is built once, from all its
/// leaves, and never changed.
pub struct VerkleTree {
    nodes: Vec<Vec<VerkleNode>>,
    width: usize,
    kzg: KZGCommitment,
}

impl VerkleTree {
    /// The layers of nodes, root first.
    pub closed spec fn layers(&self) -> Seq<Seq<NodeView>> {
        self.nodes.deep_view()
    }

    /// The number of children of a node.
    pub closed spec fn spec_width(&self) -> nat {
        self.width as nat
    }

    /// The parameters that the tree's commitments were made with.
    pub closed spec fn spec_setup(&self) -> KZGCommitment {
        self.kzg
    }

    /// The number of layers of nodes.
    pub open spec fn spec_depth(&self) -> nat {
        self.layers().len()
    }

    #[verifier::type_invariant]
    pub closed spec fn wf(&self) -> bool {
        well_formed(self.nodes.deep_view(), self.width as nat, self.kzg)
    }

    /// The tree of the given width over `datas`, with parameters of its own.
    ///
    /// There is one only where the number of leaves is `width^depth` for some
    /// `depth >= 1`, with `width` from 2 to `MAX_WIDTH`, and where the backend
    /// interpolates through the vector of every node. What the inner nodes
    /// commit to hangs on the parameters, which are made here; what the leaf
    /// groups commit to does not. So a tree of one layer is owed wherever the
    /// backend interpolates through the leaves, and a deeper one wherever it
    /// interpolates through every vector whatever the parameters are.
    pub fn new(datas: &Vec<Scalar>, width: usize) -> (r: Result<VerkleTree, VerkleTreeError>)
        ensures
            r is Ok ==> built(r->Ok_0, r->Ok_0.spec_setup(), datas.deep_view(), width as nat),
            r is Ok ==> setup_size(r->Ok_0.spec_setup()) == width,
            r is Ok ==> buildable(
                r->Ok_0.spec_setup(),
                datas.deep_view(),
                width as nat,
                r->Ok_0.spec_depth(),
            ),
            width <= MAX_WIDTH && is_tree_size(datas.len() as nat, width as nat, 1)
                && all_interpolate(leaf_vectors(datas.deep_view(), width as nat)) ==> r is Ok,
            width <= MAX_WIDTH && (exists|d: nat|
                is_tree_size(datas.len() as nat, width as nat, d) && forall|kzg: KZGCommitment|
                    setup_size(kzg) == width ==> #[trigger] buildable(
                        kzg,
                        datas.deep_view(),
                        width as nat,
                        d,
                    )) ==> r is Ok,
            r is Err ==> r->Err_0 == VerkleTreeError::BuildError,
            r is Err ==> width > MAX_WIDTH || (forall|d: nat|
                !is_tree_size(datas.len() as nat, width as nat, d)) || exists|
                kzg: KZGCommitment,
                d: nat,
            |
                setup_size(kzg) == width && is_tree_size(datas.len() as nat, width as nat, d)
                    && !#[trigger] buildable(kzg, datas.deep_view(), width as nat, d),
            width > MAX_WIDTH ==> r is Err,
            (forall|d: nat| !is_tree_size(datas.len() as nat, width as nat, d)) ==> r is Err,
            !all_interpolate(leaf_vectors(datas.deep_view(), width as nat)) ==> r is Err,
    {
        if width > MAX_WIDTH {
            return Err(VerkleTreeError::BuildError);
        }
        let depth = match tree_depth(datas.len(), width) {
            Some(depth) => depth,
            None => {
                return Err(VerkleTreeError::BuildError);
            },
        };
        let kzg = setup(width);
        let ghost data = datas.deep_view();
        proof {
            assert(vectors_at(kzg, data, width as nat, depth as nat, (depth - 1) as nat)
                == leaf_vectors(data, width as nat));
            if depth == 1 && all_interpolate(leaf_vectors(data, width as nat)) {
                assert(buildable(kzg, data, width as nat, 1));
            }
        }
        let r = Self::build_tree(kzg, datas, width);
        proof {
            if r is Ok {
                lemma_depth_unique(
                    datas.len() as nat,
                    width as nat,
                    depth as nat,
                    r->Ok_0.spec_depth(),
                );
            } else {
                assert(!buildable(kzg, data, width as nat, depth as nat));
            }
        }
        r
    }

    /// The tree of the given width over `datas`, with the parameters `kzg`,
    /// layer by layer from the leaf groups up to the root.
    ///
    /// There is one where the number of leaves is `width^depth` for some
    /// `depth >= 1`, with `width` from 2 to `MAX_WIDTH`, and the backend
    /// interpolates through the vector of every node.
    pub fn build_tree(kzg: KZGCommitment, datas: &Vec<Scalar>, width: usize) -> (r: Result<
        VerkleTree,
        VerkleTreeError,
    >)
        requires
            setup_size(kzg) >= width,
        ensures
            r is Ok <==> width <= MAX_WIDTH && exists|d: nat|
                is_tree_size(datas.len() as nat, width as nat, d) && buildable(
                    kzg,
                    datas.deep_view(),
                    width as nat,
                    d,
                ),
            r is Ok ==> built(r->Ok_0, kzg, datas.deep_view(), width as nat),
            r is Err ==> r->Err_0 == VerkleTreeError::BuildError,
    {
        if width > MAX_WIDTH {
            return Err(VerkleTreeError::BuildError);
        }
        let depth = match tree_depth(datas.len(), width) {
            Some(depth) => depth,
            None => {
                return Err(VerkleTreeError::BuildError);
            },
        };
        let ghost w = width as nat;
        let ghost data = datas.deep_view();
        proof {
            lemma_pow_step(w as int, (depth - 1) as nat);
            lemma_pow_positive(w as int, (depth - 1) as nat);
            lemma_mod_multiples_basic(pow(w as int, (depth - 1) as nat), w as int);
            lemma_div_multiples_vanish(pow(w as int, (depth - 1) as nat), w as int);
            assert(w * pow(w as int, (depth - 1) as nat) == pow(w as int, (depth - 1) as nat) * w)
                by (nonlinear_arith);
            assert(vectors_at(kzg, data, w, depth as nat, (depth - 1) as nat) == leaf_vectors(
                data,
                w,
            ));
        }
        let leaves = match create_leaf_nodes(&kzg, datas, width) {
            Some(leaves) => leaves,
            None => {
                return Err(VerkleTreeError::BuildError);
            },
        };
        proof {
            assert(data.len() == datas.len());
            assert(leaves.deep_view().len() == leaves.len());
            assert(data.len() == w * pow(w as int, (depth - 1) as nat));
            assert(data.len() / w == pow(w as int, (depth - 1) as nat));
        }
        let mut nodes: Vec<Vec<VerkleNode>> = Vec::new();
        nodes.push(leaves);
        let mut level: usize = depth - 1;
        while level > 0
            invariant
                w == width,
                data == datas.deep_view(),
                2 <= width <= MAX_WIDTH,
                setup_size(kzg) >= width,
                is_tree_size(datas.len() as nat, w, depth as nat),
                forall|d: nat| is_tree_size(datas.len() as nat, w, d) ==> d == depth,
                level < depth,
                nodes.len() == depth - level,
                forall|k: nat|
                    level <= k < depth ==> all_interpolate(
                        #[trigger] vectors_at(kzg, data, w, depth as nat, k),
                    ),
                forall|t: int|
                    0 <= t < nodes.len() ==> (#[trigger] nodes[t]).deep_view() == layer_at(
                        kzg,
                        data,
                        w,
                        depth as nat,
                        (level + t) as nat,
                    ),
                forall|t: int|
                    0 <= t < nodes.len() ==> (#[trigger] nodes[t]).len() == pow(
                        w as int,
                        (level + t) as nat,
                    ),
                forall|t: int, p: int|
                    0 <= t < nodes.len() && 0 <= p < nodes[t].len() ==> (#[trigger] nodes[t][p]).polynomial.len()
                        <= width,
            decreases level,
        {
            proof {
                lemma_pow_step(w as int, (level - 1) as nat);
                lemma_pow_positive(w as int, (level - 1) as nat);
                lemma_mod_multiples_basic(pow(w as int, (level - 1) as nat), w as int);
                lemma_div_multiples_vanish(pow(w as int, (level - 1) as nat), w as int);
                assert(w * pow(w as int, (level - 1) as nat) == pow(w as int, (level - 1) as nat)
                    * w) by (nonlinear_arith);
                assert(nodes[0].len() == pow(w as int, level as nat));
                assert(vectors_at(kzg, data, w, depth as nat, (level - 1) as nat)
                    == parent_vectors(nodes[0].deep_view(), w));
            }
            let above = match build_layer(&kzg, &nodes[0], width) {
                Some(above) => above,
                None => {
                    return Err(VerkleTreeError::BuildError);
                },
            };
            proof {
                assert(above.deep_view() == layer_at(kzg, data, w, depth as nat, (level - 1) as nat));
                assert(above.deep_view().len() == above.len());
                assert(above.len() == pow(w as int, (level - 1) as nat));
            }
            let ghost before = nodes@;
            nodes.insert(0, above);
            proof {
                assert forall|t: int| 0 <= t < nodes.len() implies (#[trigger] nodes[t]).deep_view()
                    == layer_at(kzg, data, w, depth as nat, (level - 1 + t) as nat) && nodes[t].len()
                    == pow(w as int, (level - 1 + t) as nat) by {
                    if t > 0 {
                        assert(nodes[t] == before[t - 1]);
                    }
                }
                assert forall|t: int, p: int|
                    0 <= t < nodes.len() && 0 <= p < nodes[t].len() implies (#[trigger] nodes[t][p]).polynomial.len()
                    <= width by {
                    if t > 0 {
                        assert(nodes[t] == before[t - 1]);
                        assert(before[t - 1][p].polynomial.len() <= width);
                    }
                }
            }
            level = level - 1;
        }
        proof {
            let layers = nodes.deep_view();
            let want = tree_layers(kzg, data, w, depth as nat);
            assert forall|k: int| 0 <= k < depth implies layers[k] == want[k] && layers[k].len()
                == pow(w as int, k as nat) by {
                assert(layers[k] == nodes[k].deep_view());
                assert(nodes[k].deep_view().len() == nodes[k].len());
            }
            assert(layers =~= want);
            assert forall|k: int, p: int|
                0 <= k < layers.len() && 0 <= p < layers[k].len() implies (#[trigger] layers[k][p]).polynomial.len()
                <= width by {
                assert(layers[k] == nodes[k].deep_view());
                assert(layers[k][p] == nodes[k][p]@);
                assert(nodes[k][p].polynomial.len() <= width);
                assert(nodes[k][p]@.polynomial.len() == nodes[k][p].polynomial.len());
            }
            assert(well_formed(layers, w, kzg));
            assert(buildable(kzg, data, w, depth as nat));
        }
        Ok(VerkleTree { nodes, width, kzg })
    }

    /// The opening of `node` at `points`, as the backend gives it.
    fn find_proof_node(&self, node: &VerkleNode, points: Vec<(usize, Scalar)>) -> (r: Result<
        ProofNode,
        VerkleTreeError,
    >)
        requires
            node.polynomial.len() <= setup_size(self.spec_setup()),
            points.len() <= MAX_WIDTH,
            distinct_positions(points.deep_view()),
            interpolates(points.deep_view()),
            full_degree(points.deep_view()),
        ensures
            match r {
                Ok(opening) => {
                    &&& opening_of(self.spec_setup(), node@.polynomial, points.deep_view())
                        == Some(opening@.proof)
                    &&& opening@.commitment == node@.commitment
                    &&& opening@.point == points.deep_view()
                },
                Err(e) => {
                    &&& e == VerkleTreeError::ProofGenerateError
                    &&& opening_of(self.spec_setup(), node@.polynomial, points.deep_view()) is None
                },
            },
    {
        match generate_proof(&self.kzg, &node.polynomial, &points) {
            Some(proof) => Ok(ProofNode { commitment: node.commitment, proof, point: points }),
            None => Err(VerkleTreeError::ProofGenerateError),
        }
    }

    /// The positions to open at node `p` of layer `k`, each with the value
    /// that the node holds there.
    fn collect_points(&self, k: usize, p: usize, positions: &Vec<usize>, data: &Vec<Scalar>) -> (points:
        Vec<(usize, Scalar)>)
        requires
            k < self.spec_depth(),
            p < pow(self.spec_width() as int, k as nat),
            data.len() == pow(self.spec_width() as int, self.spec_depth()),
            forall|i: int| 0 <= i < positions.len() ==> positions[i] < self.spec_width(),
        ensures
            points.deep_view() == opened_points(
                self.layers(),
                data.deep_view(),
                self.spec_width(),
                k as int,
                p as int,
                positions@,
            ),
    {
        proof {
            use_type_invariant(self);
        }
        let ghost layers = self.nodes.deep_view();
        let ghost w = self.width as nat;
        let width = self.width;
        proof {
            assert(layers.len() == self.nodes.len());
        }
        let inner = k + 1 < self.nodes.len();
        proof {
            lemma_pow_step(w as int, k as nat);
            assert(p * w + w <= w * pow(w as int, k as nat)) by (nonlinear_arith)
                requires
                    p < pow(w as int, k as nat),
            ;
            if inner {
                assert(layers[k + 1].len() == pow(w as int, (k + 1) as nat));
                assert(layers[k + 1] == self.nodes[k + 1].deep_view());
                assert(layers[k + 1].len() == self.nodes[k + 1].len());
            } else {
                assert(k + 1 == self.nodes.len());
            }
            assert(p * w + w <= usize::MAX);
        }
        let base: usize = p * width;
        let mut points: Vec<(usize, Scalar)> = Vec::new();
        let mut i: usize = 0;
        while i < positions.len()
            invariant
                layers == self.nodes.deep_view(),
                w == self.width,
                width == self.width,
                inner == (k + 1 < self.nodes.len()),
                base == p * width,
                inner ==> base + width <= self.nodes[k + 1].len(),
                inner ==> layers[k + 1] == self.nodes[k + 1].deep_view(),
                !inner ==> base + width <= data.len(),
                forall|a: int| 0 <= a < positions.len() ==> positions[a] < width,
                i <= positions.len(),
                points.len() == i,
                forall|a: int|
                    0 <= a < i ==> (#[trigger] points[a]).deep_view() == (
                        positions[a],
                        child_value(layers, data.deep_view(), w, k as int, p as int, positions[a] as int),
                    ),
            decreases positions.len() - i,
        {
            let j = positions[i];
            let value = if inner {
                proof {
                    assert(layers[k + 1][base + j] == self.nodes[k + 1][base + j]@);
                }
                map_commitment_to_field(&self.nodes[k + 1][base + j].commitment)
            } else {
                data[base + j]
            };
            points.push((j, value));
            i = i + 1;
        }
        proof {
            assert(points.deep_view() =~= opened_points(
                layers,
                data.deep_view(),
                w,
                k as int,
                p as int,
                positions@,
            ));
        }
        points
    }

    /// The opening set for the leaves `index`: one entry for each node, layer
    /// after layer from the root and by position within a layer, which is
    /// `None` where the plan opens nothing at the node. `data` holds the
    /// leaves that the tree was built from.
    ///
    /// Fails where `data` has not the tree's number of leaves, where an index
    /// names no leaf, and where the backend refuses to open a node.
    pub fn prove(&self, index: Vec<usize>, data: &Vec<Scalar>) -> (r: Result<
        Vec<Option<ProofNode>>,
        VerkleTreeError,
    >)
        requires
            index.len() > 0,
        ensures
            r is Ok <==> {
                &&& batch_fits(data.len() as nat, index@, self.spec_width(), self.spec_depth())
                &&& all_open(
                    self.spec_setup(),
                    self.layers(),
                    data.deep_view(),
                    self.spec_width(),
                    index_plan(index@, self.spec_width(), self.spec_depth()),
                )
            },
            r is Ok ==> r->Ok_0.deep_view() == openings_upto(
                self.spec_setup(),
                self.layers(),
                data.deep_view(),
                self.spec_width(),
                index_plan(index@, self.spec_width(), self.spec_depth()),
                self.spec_depth(),
            ),
            r is Ok ==> structure_ok(
                self.layers()[0][0].commitment,
                r->Ok_0.deep_view(),
                self.spec_width(),
                index@,
                self.spec_depth(),
                leaves_at(data.deep_view(), index@),
            ),
            r is Err ==> r->Err_0 == VerkleTreeError::ProofGenerateError,
    {
        proof {
            use_type_invariant(self);
        }
        let ghost layers = self.nodes.deep_view();
        let ghost w = self.width as nat;
        let ghost kzg = self.kzg;
        let ghost leaves = data.deep_view();
        let ghost wanted = index@;
        let width = self.width;
        let depth = self.nodes.len();
        proof {
            assert(layers.len() == depth);
        }
        let size = match checked_pow(width, depth) {
            Some(size) => size,
            None => {
                return Err(VerkleTreeError::ProofGenerateError);
            },
        };
        if data.len() != size {
            return Err(VerkleTreeError::ProofGenerateError);
        }
        let mut i: usize = 0;
        while i < index.len()
            invariant
                i <= index.len(),
                size == data.len(),
                forall|a: int| 0 <= a < i ==> index[a] < size,
            decreases index.len() - i,
        {
            if index[i] >= size {
                return Err(VerkleTreeError::ProofGenerateError);
            }
            i = i + 1;
        }
        let plan = create_index_for_proof(index, width, depth);
        let ghost steps = index_plan(wanted, w, depth as nat);
        proof {
            assert(plan.deep_view().len() == plan.len());
        }
        let mut out: Vec<Option<ProofNode>> = Vec::new();
        let mut k: usize = 0;
        while k < depth
            invariant
                well_formed(layers, w, kzg),
                layers == self.nodes.deep_view(),
                w == self.width,
                width == self.width,
                kzg == self.kzg,
                leaves == data.deep_view(),
                depth == self.nodes.len(),
                depth == layers.len(),
                data.len() == pow(w as int, depth as nat),
                forall|a: int| 0 <= a < wanted.len() ==> wanted[a] < pow(w as int, depth as nat),
                wanted == index@,
                steps == index_plan(wanted, w, depth as nat),
                plan.deep_view() == steps,
                plan.len() == depth,
                k <= depth,
                out.deep_view() == openings_upto(kzg, layers, leaves, w, steps, k as nat),
                forall|kk: int, pp: int|
                    0 <= kk < k && 0 <= pp < layers[kk].len() && steps[kk][pp].len() > 0
                        ==> #[trigger] node_opens(kzg, layers, leaves, w, kk, pp, steps[kk][pp]),
            decreases depth - k,
        {
            let count = self.nodes[k].len();
            proof {
                assert(layers[k as int] == self.nodes[k as int].deep_view());
                assert(layers[k as int].len() == count);
                assert(count == pow(w as int, k as nat));
                assert(steps[k as int] == plan[k as int].deep_view());
                assert(steps[k as int].len() == pow(w as int, k as nat));
                assert(plan[k as int].len() == count);
            }
            let ghost done = out.deep_view();
            let mut p: usize = 0;
            while p < count
                invariant
                    well_formed(layers, w, kzg),
                    layers == self.nodes.deep_view(),
                    w == self.width,
                    width == self.width,
                    kzg == self.kzg,
                    leaves == data.deep_view(),
                    depth == self.nodes.len(),
                    depth == layers.len(),
                    data.len() == pow(w as int, depth as nat),
                    forall|a: int| 0 <= a < wanted.len() ==> wanted[a] < pow(w as int, depth as nat),
                    wanted == index@,
                    steps == index_plan(wanted, w, depth as nat),
                    plan.deep_view() == steps,
                    plan.len() == depth,
                    k < depth,
                    count == self.nodes[k as int].len(),
                    count == layers[k as int].len(),
                    count == pow(w as int, k as nat),
                    plan[k as int].len() == count,
                    steps[k as int] == plan[k as int].deep_view(),
                    p <= count,
                    done == openings_upto(kzg, layers, leaves, w, steps, k as nat),
                    out.deep_view() == done + layer_openings(
                        kzg,
                        layers,
                        leaves,
                        w,
                        steps,
                        k as int,
                    ).take(p as int),
                    forall|kk: int, pp: int|
                        0 <= kk < k && 0 <= pp < layers[kk].len() && steps[kk][pp].len() > 0
                            ==> #[trigger] node_opens(kzg, layers, leaves, w, kk, pp, steps[kk][pp]),
                    forall|pp: int|
                        0 <= pp < p && steps[k as int][pp].len() > 0 ==> #[trigger] node_opens(
                            kzg,
                            layers,
                            leaves,
                            w,
                            k as int,
                            pp,
                            steps[k as int][pp],
                        ),
                decreases count - p,
            {
                let positions = &plan[k][p];
                let node = &self.nodes[k][p];
                let ghost row = layer_openings(kzg, layers, leaves, w, steps, k as int);
                let ghost before = out.deep_view();
                proof {
                    assert(steps[k as int][p as int] =~= positions@);
                    assert(layers[k as int][p as int] == node@);
                    assert(node@.polynomial.len() == node.polynomial.len());
                    let up = (depth - 1 - k) as nat;
                    assert(positions@ == crate::index_plan::node_plan(
                        wanted,
                        w,
                        depth as nat,
                        k as nat,
                        p as int,
                    ));
                    lemma_offsets_in(touched(wanted, w, up), p * w, w);
                }
                if positions.len() == 0 {
                    out.push(None);
                    proof {
                        assert(row[p as int] == None::<OpeningView>);
                    }
                } else {
                    let points = self.collect_points(k, p, positions, data);
                    proof {
                        let want = opened_points(layers, leaves, w, k as int, p as int, positions@);
                        assert forall|a: int, b: int| 0 <= a < b < want.len() implies want[a].0
                            != want[b].0 by {
                            assert(positions[a] < positions[b]);
                        }
                        assert(points.len() == want.len());
                    }
                    let (runs, full) = check_interpolation(&points);
                    if !runs || !full {
                        proof {
                            assert(!node_opens(
                                kzg,
                                layers,
                                leaves,
                                w,
                                k as int,
                                p as int,
                                steps[k as int][p as int],
                            ));
                        }
                        return Err(VerkleTreeError::ProofGenerateError);
                    }
                    match self.find_proof_node(node, points) {
                        Ok(opening) => {
                            proof {
                                assert(row[p as int] == Some(opening@));
                            }
                            out.push(Some(opening));
                        },
                        Err(e) => {
                            proof {
                                assert(!node_opens(
                                    kzg,
                                    layers,
                                    leaves,
                                    w,
                                    k as int,
                                    p as int,
                                    steps[k as int][p as int],
                                ));
                            }
                            return Err(e);
                        },
                    }
                }
                proof {
                    assert(out.deep_view() =~= before.push(row[p as int]));
                    assert(row.take(p + 1) =~= row.take(p as int).push(row[p as int]));
                    assert(out.deep_view() =~= done + row.take(p + 1));
                }
                p = p + 1;
            }
            proof {
                let row = layer_openings(kzg, layers, leaves, w, steps, k as int);
                assert(row.take(count as int) =~= row);
            }
            k = k + 1;
        }
        proof {
            let claimed = leaves_at(leaves, wanted);
            assert forall|a: int| 0 <= a < wanted.len() implies claimed.contains(
                leaves[#[trigger] wanted[a] as int],
            ) by {
                assert(claimed[a] == leaves[wanted[a] as int]);
            }
            lemma_proved_batch_is_in_order(kzg, layers, leaves, w, wanted, claimed);
        }
        Ok(out)
    }

    /// Whether the batch proof `tree_proofs` shows that the tree with the
    /// commitment `root`, of the given width and depth, holds at the leaves
    /// `indices` the values `data`. Entries that are `None` are passed over.
    /// The parameters are made anew, for one position more than the width.
    ///
    /// Whatever the backend says, nothing is accepted that is not in order.
    pub fn verify(
        root: Commitment,
        tree_proofs: Vec<Option<ProofNode>>,
        width: usize,
        indices: Vec<usize>,
        depth: usize,
        data: Vec<Scalar>,
    ) -> (ok: bool)
        ensures
            ok ==> structure_ok(
                root@,
                tree_proofs.deep_view(),
                width as nat,
                indices@,
                depth as nat,
                data.deep_view(),
            ),
            structure_ok(
                root@,
                tree_proofs.deep_view(),
                width as nat,
                indices@,
                depth as nat,
                data.deep_view(),
            ) ==> exists|kzg: KZGCommitment|
                setup_size(kzg) == width + 1 && ok == #[trigger] accepted(
                    kzg,
                    root@,
                    tree_proofs.deep_view(),
                    width as nat,
                    indices@,
                    depth as nat,
                    data.deep_view(),
                ),
    {
        if width > MAX_WIDTH {
            return false;
        }
        let kzg = setup(width + 1);
        Self::verify_with(&kzg, root, tree_proofs, width, indices, depth, data)
    }

    /// Whether the batch proof `tree_proofs` is in order and the backend,
    /// with the parameters `kzg`, accepts each of its openings.
    pub fn verify_with(
        kzg: &KZGCommitment,
        root: Commitment,
        tree_proofs: Vec<Option<ProofNode>>,
        width: usize,
        indices: Vec<usize>,
        depth: usize,
        data: Vec<Scalar>,
    ) -> (ok: bool)
        requires
            setup_size(*kzg) > width,
        ensures
            ok == accepted(
                *kzg,
                root@,
                tree_proofs.deep_view(),
                width as nat,
                indices@,
                depth as nat,
                data.deep_view(),
            ),
    {
        let ghost wanted = indices@;
        let openings = present(&tree_proofs);
        if openings.len() == 0 {
            return false;
        }
        proof {
            assert(openings.deep_view()[0] == openings[0]@);
        }
        if !(root == openings[0].commitment) {
            return false;
        }
        if width < 2 || width > MAX_WIDTH || depth == 0 {
            return false;
        }
        let size = match checked_pow(width, depth) {
            Some(size) => size,
            None => {
                return false;
            },
        };
        let mut i: usize = 0;
        while i < indices.len()
            invariant
                i <= indices.len(),
                size == pow(width as int, depth as nat),
                forall|a: int| 0 <= a < i ==> indices[a] < size,
            decreases indices.len() - i,
        {
            if indices[i] >= size {
                return false;
            }
            i = i + 1;
        }
        let plan = create_index_for_proof(indices, width, depth);
        match count_openings(&plan) {
            Some(count) if count == openings.len() => {},
            _ => {
                return false;
            },
        }
        let expected = collect_expected(&openings, &data);
        let ghost all = openings.deep_view();
        let mut n: usize = 0;
        while n < openings.len()
            invariant
                all == openings.deep_view(),
                all == compact(tree_proofs.deep_view()),
                all.len() > 0,
                all[0].commitment == root@,
                2 <= width <= MAX_WIDTH,
                depth >= 1,
                wanted == indices@,
                batch_fits(
                    pow(width as int, depth as nat) as nat,
                    wanted,
                    width as nat,
                    depth as nat,
                ),
                pow(width as int, depth as nat) <= usize::MAX,
                opened_nodes(index_plan(wanted, width as nat, depth as nat)) == all.len(),
                setup_size(*kzg) > width,
                expected.deep_view() == expected_values(all, data.deep_view()),
                n <= openings.len(),
                forall|a: int| 0 <= a < n ==> positions_ok((#[trigger] all[a]).point, width as nat),
                forall|a: int| 0 <= a < n ==> interpolates((#[trigger] all[a]).point),
                forall|a: int| 0 <= a < n ==> linked(#[trigger] all[a], expected.deep_view()),
                forall|a: int|
                    0 <= a < n ==> opening_accepted(
                        *kzg,
                        (#[trigger] all[a]).commitment,
                        all[a].point,
                        all[a].proof,
                    ),
            decreases openings.len() - n,
        {
            let opening = openings[n];
            proof {
                assert(all[n as int] == opening@);
            }
            if !positions_in_order(&opening.point, width) {
                return false;
            }
            proof {
                lemma_positions_bounded(opening@.point, width as nat);
            }
            if !check_interpolation(&opening.point).0 {
                return false;
            }
            if !verify_proof(kzg, &opening.commitment, &opening.point, &opening.proof) {
                return false;
            }
            if !is_linked(opening, &expected) {
                return false;
            }
            n = n + 1;
        }
        true
    }

    /// The number of layers of nodes: the root is layer 0, the leaf groups
    /// are the last layer.
    pub fn depth(&self) -> (d: usize)
        ensures
            d == self.spec_depth(),
            d >= 1,
            well_formed(self.layers(), self.spec_width(), self.spec_setup()),
    {
        proof {
            use_type_invariant(self);
        }
        self.nodes.len()
    }

    /// The commitment of the root, which stands for the whole tree.
    pub fn root_commitment(&self) -> (r: Option<Commitment>)
        ensures
            r is Some,
            r->0@ == self.layers()[0][0].commitment,
    {
        proof {
            use_type_invariant(self);
            lemma_pow0(self.width as int);
            assert(self.nodes.deep_view()[0] == self.nodes[0].deep_view());
            assert(self.nodes[0].deep_view()[0] == self.nodes[0][0]@);
        }
        match self.nodes.is_empty() {
            true => None,
            false => match self.nodes[0].is_empty() {
                true => None,
                false => Some(self.nodes[0][0].commitment),
            },
        }
    }
}

/// Every node above the last layer commits to the encodings of the
/// commitments of its children.
pub proof fn lemma_inner_node_commits_to_children(
    layers: Seq<Seq<NodeView>>,
    width: nat,
    kzg: KZGCommitment,
    k: int,
    p: int,
)
    requires
        well_formed(layers, width, kzg),
        0 <= k < layers.len() - 1,
        0 <= p < pow(width as int, k as nat),
    ensures
        layers[k][p].commitment == commitment_of(
            kzg,
            interpolation(encodings(layers[k + 1], p * width, width)),
        ),
        layers[k][p].children,
{
    lemma_pow_step(width as int, k as nat);
    lemma_div_multiples_vanish(pow(width as int, k as nat), width as int);
    assert(layers[k] == layer_above(kzg, layers[k + 1], width));
    assert(layers[k + 1].len() == width * pow(width as int, k as nat));
}

/// Every node of the last layer of the tree over `data` commits to its
/// leaves.
pub proof fn lemma_leaf_group_commits_to_leaves(
    kzg: KZGCommitment,
    data: Seq<nat>,
    width: nat,
    depth: nat,
    p: int,
)
    requires
        is_tree_size(data.len(), width, depth),
        0 <= p < pow(width as int, (depth - 1) as nat),
    ensures
        tree_layers(kzg, data, width, depth)[depth - 1][p].commitment == commitment_of(
            kzg,
            interpolation(data.subrange(p * width, p * width + width)),
        ),
{
    lemma_pow_step(width as int, (depth - 1) as nat);
    lemma_div_multiples_vanish(pow(width as int, (depth - 1) as nat), width as int);
    assert(data.len() == width * pow(width as int, (depth - 1) as nat));
}

/// A batch proof is not in order against a root other than the commitment
/// of its first opening.
pub proof fn lemma_wrong_root_rejected(
    root: Point,
    entries: Seq<Option<OpeningView>>,
    width: nat,
    indices: Seq<usize>,
    depth: nat,
    leaves: Seq<nat>,
)
    requires
        compact(entries).len() > 0 ==> compact(entries)[0].commitment != root,
    ensures
        !structure_ok(root, entries, width, indices, depth, leaves),
{
}

/// A batch proof is not in order where it holds another number of openings
/// than the plan for the indices opens nodes.
pub proof fn lemma_wrong_size_rejected(
    root: Point,
    entries: Seq<Option<OpeningView>>,
    width: nat,
    indices: Seq<usize>,
    depth: nat,
    leaves: Seq<nat>,
)
    requires
        opened_nodes(index_plan(indices, width, depth)) != compact(entries).len(),
    ensures
        !structure_ok(root, entries, width, indices, depth, leaves),
{
}

/// A batch proof is not in order where one of its openings opens a value
/// that is neither the encoding of the commitment of an opening nor one of
/// the claimed leaves.
pub proof fn lemma_wrong_value_rejected(
    root: Point,
    entries: Seq<Option<OpeningView>>,
    width: nat,
    indices: Seq<usize>,
    depth: nat,
    leaves: Seq<nat>,
    opening: int,
    at: int,
)
    requires
        0 <= opening < compact(entries).len(),
        0 <= at < compact(entries)[opening].point.len(),
        !leaves.contains(compact(entries)[opening].point[at].1),
        !commitment_encodings(compact(entries)).contains(compact(entries)[opening].point[at].1),
    ensures
        !structure_ok(root, entries, width, indices, depth, leaves),
{
    let openings = compact(entries);
    let value = openings[opening].point[at].1;
    let expected = expected_values(openings, leaves);
    if expected.contains(value) {
        let i = choose|i: int| 0 <= i < expected.len() && expected[i] == value;
        if i < commitment_encodings(openings).len() {
            assert(commitment_encodings(openings)[i] == value);
        } else {
            assert(leaves[i - commitment_encodings(openings).len()] == value);
        }
    }
    assert(!linked(openings[opening], expected));
}

} // verus!
