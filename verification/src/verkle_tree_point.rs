//! The Verkle tree over a vector commitment to byte strings.
//!
//! Every node commits to a vector of `width` byte strings: a leaf group to
//! `width` consecutive leaves, an inner node to the serialised commitments
//! of its `width` children. The commitment scheme is handed in by the
//! caller, as the functions that commit, open and check; the tree says what
//! it asks of them and what it makes of their answers.

use crate::index_plan::{
    ancestor, batch_fits, checked_pow, count_openings, create_index_for_proof, index_plan,
    is_tree_size, leaves_at, lemma_offsets_in, lemma_plan_entry, lemma_pow_step, node_plan,
    opened_in_layer,
    opened_nodes, touched, tree_depth,
};
use crate::opening_set::{compact, lemma_compact_first, lemma_compact_from, lemma_compact_keeps};
use crate::round_trip::{lemma_ancestor_below_root, lemma_opened_child_opens};
use vstd::arithmetic::div_mod::*;
use vstd::arithmetic::power::*;
use vstd::prelude::*;

verus! {

/// What can go wrong with a tree.
#[derive(Debug, Clone, Copy, PartialEq, Eq, Structural)]
pub enum VerkleTreeError {
    /// The leaves do not fill a tree of the width asked for, or a vector
    /// could not be committed to.
    BuildError,
    /// A node could not be opened.
    ProofGenerateError,
    /// The tree has no root.
    EmptyTree,
}

/// A commitment, as the bytes of its canonical serialisation.
#[derive(Debug, Clone, PartialEq, Eq)]
pub struct Commitment {
    pub bytes: Vec<u8>,
}

/// The proof of an opening, as the bytes of its canonical serialisation.
#[derive(Debug, Clone, PartialEq, Eq)]
pub struct Proof {
    pub bytes: Vec<u8>,
}

impl View for Commitment {
    type V = Seq<u8>;

    open spec fn view(&self) -> Seq<u8> {
        self.bytes@
    }
}

impl DeepView for Commitment {
    type V = Seq<u8>;

    open spec fn deep_view(&self) -> Seq<u8> {
        self.bytes@
    }
}

impl View for Proof {
    type V = Seq<u8>;

    open spec fn view(&self) -> Seq<u8> {
        self.bytes@
    }
}

impl DeepView for Proof {
    type V = Seq<u8>;

    open spec fn deep_view(&self) -> Seq<u8> {
        self.bytes@
    }
}

/// One node: its commitment, and whether it stands above other nodes.
#[derive(Debug, Clone)]
pub struct VerkleNode {
    pub(crate) commitment: Commitment,
    pub(crate) children: bool,
}

/// A copy of `bytes`.
pub fn copy_bytes(bytes: &Vec<u8>) -> (copy: Vec<u8>)
    ensures
        copy@ == bytes@,
{
    let mut copy: Vec<u8> = Vec::new();
    let mut i: usize = 0;
    while i < bytes.len()
        invariant
            i <= bytes.len(),
            copy@ == bytes@.take(i as int),
        decreases bytes.len() - i,
    {
        copy.push(bytes[i]);
        proof {
            assert(bytes@.take(i + 1) =~= bytes@.take(i as int).push(bytes[i as int]));
        }
        i = i + 1;
    }
    proof {
        assert(bytes@.take(bytes.len() as int) =~= bytes@);
    }
    copy
}

/// Whether two byte strings are the same.
pub fn same_bytes(a: &Vec<u8>, b: &Vec<u8>) -> (same: bool)
    ensures
        same == (a@ == b@),
{
    if a.len() != b.len() {
        return false;
    }
    let mut i: usize = 0;
    while i < a.len()
        invariant
            a.len() == b.len(),
            i <= a.len(),
            forall|k: int| 0 <= k < i ==> a[k] == b[k],
        decreases a.len() - i,
    {
        if a[i] != b[i] {
            return false;
        }
        i = i + 1;
    }
    proof {
        assert(a@ =~= b@);
    }
    true
}

/// The vector that node `p` of layer `k` commits to: the commitments of its
/// children, or in the last layer its leaves.
pub open spec fn node_vector(
    commitments: Seq<Seq<Seq<u8>>>,
    data: Seq<Seq<u8>>,
    width: nat,
    k: int,
    p: int,
) -> Seq<Seq<u8>> {
    Seq::new(
        width,
        |j: int|
            if k + 1 < commitments.len() {
                commitments[k + 1][p * width + j]
            } else {
                data[p * width + j]
            },
    )
}

/// `commit` has answered `values` with the commitment `c`.
pub open spec fn committed<F: Fn(&Vec<Vec<u8>>) -> Option<Commitment>>(
    commit: F,
    values: Seq<Seq<u8>>,
    c: Seq<u8>,
) -> bool {
    exists|v: Vec<Vec<u8>>, r: Commitment|
        v.deep_view() == values && r@ == c && call_ensures(commit, (&v,), Some(r))
}

/// `commit` has refused a vector of `width` values.
pub open spec fn commit_refused<F: Fn(&Vec<Vec<u8>>) -> Option<Commitment>>(
    commit: F,
    width: nat,
) -> bool {
    exists|v: Vec<Vec<u8>>| v.len() == width && call_ensures(commit, (&v,), None)
}

/// Every node holds what `commit` has answered its vector with.
pub open spec fn all_committed<F: Fn(&Vec<Vec<u8>>) -> Option<Commitment>>(
    commit: F,
    commitments: Seq<Seq<Seq<u8>>>,
    data: Seq<Seq<u8>>,
    width: nat,
) -> bool {
    forall|k: int, p: int|
        0 <= k < commitments.len() && 0 <= p < commitments[k].len() ==> committed(
            commit,
            node_vector(commitments, data, width, k, p),
            #[trigger] commitments[k][p],
        )
}

/// The commitments of the nodes of a layer.
pub closed spec fn layer_commitments(layer: Seq<VerkleNode>) -> Seq<Seq<u8>> {
    Seq::new(layer.len(), |p: int| layer[p].commitment@)
}

/// The commitments of the nodes of some layers.
pub closed spec fn tree_commitments(nodes: Seq<Vec<VerkleNode>>) -> Seq<Seq<Seq<u8>>> {
    Seq::new(nodes.len(), |k: int| layer_commitments(nodes[k]@))
}

/// The opening of one node: its commitment, the proof, the opened child
/// positions, ascending, and the values opened there.
#[derive(Debug, Clone, PartialEq, Eq)]
pub struct ProofNode {
    pub commitment: Commitment,
    pub proof: Proof,
    pub indices: Vec<usize>,
    pub values: Vec<Vec<u8>>,
}

/// The openings of a batch, one for each opened node.
#[derive(Debug, Clone)]
pub struct VerkleProof {
    pub proofs: Vec<ProofNode>,
}

/// An opening as the contracts see it.
pub struct OpeningView {
    pub commitment: Seq<u8>,
    pub proof: Seq<u8>,
    pub indices: Seq<usize>,
    pub values: Seq<Seq<u8>>,
}

impl View for ProofNode {
    type V = OpeningView;

    open spec fn view(&self) -> OpeningView {
        OpeningView {
            commitment: self.commitment@,
            proof: self.proof@,
            indices: self.indices@,
            values: self.values.deep_view(),
        }
    }
}

impl DeepView for ProofNode {
    type V = OpeningView;

    open spec fn deep_view(&self) -> OpeningView {
        self@
    }
}

/// The values of a vector at the given positions.
pub open spec fn values_at(vector: Seq<Seq<u8>>, positions: Seq<usize>) -> Seq<Seq<u8>> {
    Seq::new(positions.len(), |i: int| vector[positions[i] as int])
}

/// `open` has answered the commitment, its vector and the positions with
/// the proof.
pub open spec fn opened<F: Fn(&Commitment, &Vec<Vec<u8>>, &Vec<usize>) -> Option<Proof>>(
    open: F,
    commitment: Seq<u8>,
    vector: Seq<Seq<u8>>,
    positions: Seq<usize>,
    proof: Seq<u8>,
) -> bool {
    exists|c: Commitment, v: Vec<Vec<u8>>, s: Vec<usize>, r: Proof|
        c@ == commitment && v.deep_view() == vector && s@ == positions && r@ == proof
            && call_ensures(open, (&c, &v, &s), Some(r))
}

/// `open` has refused some commitment, vector and positions.
pub open spec fn open_refused<F: Fn(&Commitment, &Vec<Vec<u8>>, &Vec<usize>) -> Option<Proof>>(
    open: F,
) -> bool {
    exists|c: Commitment, v: Vec<Vec<u8>>, s: Vec<usize>| call_ensures(open, (&c, &v, &s), None)
}

/// The entry of a node in the opening set is what it has to be: nothing
/// where no position is to be opened, else the node's commitment, the
/// positions, the values of its vector there, and what `open` has answered
/// them with.
pub open spec fn entry_ok<F: Fn(&Commitment, &Vec<Vec<u8>>, &Vec<usize>) -> Option<Proof>>(
    open: F,
    commitment: Seq<u8>,
    vector: Seq<Seq<u8>>,
    positions: Seq<usize>,
    entry: Option<ProofNode>,
) -> bool {
    if positions.len() == 0 {
        entry is None
    } else {
        &&& entry is Some
        &&& entry->0@.commitment == commitment
        &&& entry->0@.indices == positions
        &&& entry->0@.values == values_at(vector, positions)
        &&& opened(open, commitment, vector, positions, entry->0@.proof)
    }
}

/// The number of nodes in the layers above layer `k`.
pub open spec fn layer_offset(width: nat, k: nat) -> nat
    decreases k,
{
    if k == 0 {
        0
    } else {
        layer_offset(width, (k - 1) as nat) + pow(width as int, (k - 1) as nat) as nat
    }
}

/// Every entry of the first `layers` layers, and of the first `upto` nodes
/// of the next, is what it has to be.
pub open spec fn entries_ok<F: Fn(&Commitment, &Vec<Vec<u8>>, &Vec<usize>) -> Option<Proof>>(
    open: F,
    commitments: Seq<Seq<Seq<u8>>>,
    data: Seq<Seq<u8>>,
    width: nat,
    plan: Seq<Seq<Seq<usize>>>,
    entries: Seq<Option<ProofNode>>,
    layers: int,
    upto: int,
) -> bool {
    forall|k: int, p: int|
        0 <= k <= layers && 0 <= p < commitments[k].len() && (k < layers || p < upto)
            && k < commitments.len() ==> entry_ok(
            open,
            #[trigger] commitments[k][p],
            node_vector(commitments, data, width, k, p),
            plan[k][p],
            entries[layer_offset(width, k as nat) + p],
        )
}

/// The opening has a value for each position, and the positions ascend,
/// without repeats, below `width`.
pub open spec fn positions_ok(opening: OpeningView, width: nat) -> bool {
    &&& opening.indices.len() == opening.values.len()
    &&& forall|a: int, b: int|
        0 <= a < b < opening.indices.len() ==> opening.indices[a] < opening.indices[b]
    &&& forall|a: int| 0 <= a < opening.indices.len() ==> (#[trigger] opening.indices[a]) < width
}

/// The values that may be opened in a batch: the serialised commitment of
/// every opened node, and every claimed leaf.
pub open spec fn expected_values(openings: Seq<ProofNode>, leaves: Seq<Seq<u8>>) -> Seq<Seq<u8>> {
    Seq::new(openings.len(), |i: int| openings[i]@.commitment) + leaves
}

/// Every value that the opening opens is among the expected ones.
pub open spec fn linked(opening: OpeningView, expected: Seq<Seq<u8>>) -> bool {
    forall|i: int| 0 <= i < opening.values.len() ==> expected.contains(#[trigger] opening.values[i])
}

/// What a batch proof must be, whatever is said of its openings: there is
/// an opening, the first is of the root, the tree's size is one a tree can
/// have and every index names a leaf, there are as many openings as the
/// plan opens nodes, their positions are in order, and every opened value
/// is the serialised commitment of an opened node or a claimed leaf.
pub open spec fn structure_ok(
    root: Seq<u8>,
    entries: Seq<Option<ProofNode>>,
    width: nat,
    indices: Seq<usize>,
    depth: nat,
    leaves: Seq<Seq<u8>>,
) -> bool {
    let openings = compact(entries);
    &&& openings.len() > 0
    &&& openings[0]@.commitment == root
    &&& width >= 2
    &&& depth >= 1
    &&& batch_fits(pow(width as int, depth) as nat, indices, width, depth)
    &&& pow(width as int, depth) <= usize::MAX
    &&& opened_nodes(index_plan(indices, width, depth)) == openings.len()
    &&& forall|i: int| 0 <= i < openings.len() ==> positions_ok((#[trigger] openings[i])@, width)
    &&& forall|i: int|
        0 <= i < openings.len() ==> linked((#[trigger] openings[i])@, expected_values(openings, leaves))
}

/// The openings among `entries`, in their order.
fn present(entries: &Vec<Option<ProofNode>>) -> (openings: Vec<&ProofNode>)
    ensures
        openings.len() == compact(entries@).len(),
        forall|i: int| 0 <= i < openings.len() ==> *(#[trigger] openings[i]) == compact(entries@)[i],
{
    let ghost all = entries@;
    let mut openings: Vec<&ProofNode> = Vec::new();
    let mut i: usize = 0;
    proof {
        assert(all.take(0) =~= Seq::empty());
    }
    while i < entries.len()
        invariant
            all == entries@,
            i <= entries.len(),
            openings.len() == compact(all.take(i as int)).len(),
            forall|a: int|
                0 <= a < openings.len() ==> *(#[trigger] openings[a]) == compact(
                    all.take(i as int),
                )[a],
        decreases entries.len() - i,
    {
        proof {
            assert(all.take(i + 1).drop_last() =~= all.take(i as int));
            assert(all.take(i + 1).last() == all[i as int]);
        }
        match &entries[i] {
            Some(opening) => {
                openings.push(opening);
            },
            None => {},
        }
        i = i + 1;
    }
    proof {
        assert(all.take(entries.len() as int) =~= all);
    }
    openings
}

/// Whether the opening has a value for each position, and the positions
/// ascend below `width`.
fn positions_in_order(opening: &ProofNode, width: usize) -> (ok: bool)
    ensures
        ok == positions_ok(opening@, width as nat),
{
    if opening.indices.len() != opening.values.len() {
        return false;
    }
    let ghost view = opening.indices@;
    let mut i: usize = 0;
    while i < opening.indices.len()
        invariant
            view == opening.indices@,
            opening.indices.len() == opening.values.len(),
            i <= opening.indices.len(),
            forall|a: int| 0 <= a < i ==> (#[trigger] view[a]) < width,
            forall|a: int| 0 < a < i ==> view[a - 1] < (#[trigger] view[a]),
        decreases opening.indices.len() - i,
    {
        if opening.indices[i] >= width {
            return false;
        }
        if i > 0 && opening.indices[i - 1] >= opening.indices[i] {
            return false;
        }
        i = i + 1;
    }
    proof {
        assert forall|a: int, b: int| 0 <= a < b < view.len() implies view[a] < view[b] by {
            lemma_steps_ascend(view, a, b);
        }
    }
    true
}

/// Positions that ascend from each to the next ascend from each to every
/// later one.
proof fn lemma_steps_ascend(positions: Seq<usize>, a: int, b: int)
    requires
        0 <= a < b < positions.len(),
        forall|c: int| 0 < c < positions.len() ==> positions[c - 1] < (#[trigger] positions[c]),
    ensures
        positions[a] < positions[b],
    decreases b - a,
{
    if a + 1 < b {
        lemma_steps_ascend(positions, a, b - 1);
    }
    assert(positions[b - 1] < positions[b]);
}

/// The values that may be opened: the serialised commitments of
/// `openings`, then the claimed leaves.
fn collect_expected(openings: &Vec<&ProofNode>, data: &Vec<Vec<u8>>) -> (expected: Vec<Vec<u8>>)
    ensures
        expected.len() == openings.len() + data.len(),
        forall|a: int|
            0 <= a < openings.len() ==> (#[trigger] expected[a])@ == openings[a]@.commitment,
        forall|a: int|
            0 <= a < data.len() ==> (#[trigger] expected[openings.len() + a])@ == data[a]@,
{
    let mut expected: Vec<Vec<u8>> = Vec::new();
    let mut i: usize = 0;
    while i < openings.len()
        invariant
            i <= openings.len(),
            expected.len() == i,
            forall|a: int| 0 <= a < i ==> (#[trigger] expected[a])@ == openings[a]@.commitment,
        decreases openings.len() - i,
    {
        expected.push(VerkleTree::map_commitment_to_vec_u8(&openings[i].commitment));
        i = i + 1;
    }
    let ghost count = openings.len();
    let mut j: usize = 0;
    while j < data.len()
        invariant
            j <= data.len(),
            count == openings.len(),
            expected.len() == count + j,
            forall|a: int| 0 <= a < count ==> (#[trigger] expected[a])@ == openings[a]@.commitment,
            forall|a: int| 0 <= a < j ==> (#[trigger] expected[count + a])@ == data[a]@,
        decreases data.len() - j,
    {
        expected.push(copy_bytes(&data[j]));
        j = j + 1;
    }
    expected
}

/// `value` is among `values`.
pub open spec fn among(values: Seq<Vec<u8>>, value: Seq<u8>) -> bool {
    exists|a: int| 0 <= a < values.len() && (#[trigger] values[a])@ == value
}

/// Whether `value` is among `values`.
fn holds_value(values: &Vec<Vec<u8>>, value: &Vec<u8>) -> (found: bool)
    ensures
        found == among(values@, value@),
{
    let mut i: usize = 0;
    while i < values.len()
        invariant
            i <= values.len(),
            forall|a: int| 0 <= a < i ==> (#[trigger] values[a])@ != value@,
        decreases values.len() - i,
    {
        if same_bytes(&values[i], value) {
            return true;
        }
        i = i + 1;
    }
    false
}

/// Whether every value that `opening` opens is among `expected`.
fn is_linked(opening: &ProofNode, expected: &Vec<Vec<u8>>) -> (ok: bool)
    ensures
        ok == forall|i: int|
            0 <= i < opening.values.len() ==> among(expected@, (#[trigger] opening.values[i])@),
{
    let mut i: usize = 0;
    while i < opening.values.len()
        invariant
            i <= opening.values.len(),
            forall|k: int| 0 <= k < i ==> among(expected@, (#[trigger] opening.values[k])@),
        decreases opening.values.len() - i,
    {
        if !holds_value(expected, &opening.values[i]) {
            return false;
        }
        i = i + 1;
    }
    true
}

/// A Verkle tree over a vector commitment. It is built once, from all its
/// leaves, and never changed.
pub struct VerkleTree {
    nodes: Vec<Vec<VerkleNode>>,
    width: usize,
}

impl VerkleTree {
    /// The commitments of the nodes, layer by layer from the root.
    pub closed spec fn commitments(&self) -> Seq<Seq<Seq<u8>>> {
        tree_commitments(self.nodes@)
    }

    /// The number of children of a node.
    pub closed spec fn spec_width(&self) -> nat {
        self.width as nat
    }

    /// The number of layers of nodes.
    pub open spec fn spec_depth(&self) -> nat {
        self.commitments().len()
    }

    /// Whether node `p` of layer `k` is marked as standing above other
    /// nodes.
    pub closed spec fn has_children(&self, k: int, p: int) -> bool {
        self.nodes[k][p].children
    }

    /// The shape of every tree: at least two children to a node, a root
    /// layer, `width^k` nodes in layer `k`, and every node marked as standing
    /// above other nodes but those of the last layer.
    pub open spec fn shaped(&self) -> bool {
        &&& self.spec_width() >= 2
        &&& self.spec_depth() >= 1
        &&& forall|k: int|
            0 <= k < self.spec_depth() ==> (#[trigger] self.commitments()[k]).len() == pow(
                self.spec_width() as int,
                k as nat,
            )
        &&& forall|k: int, p: int|
            0 <= k < self.spec_depth() && 0 <= p < pow(self.spec_width() as int, k as nat)
                ==> #[trigger] self.has_children(k, p) == (k + 1 < self.spec_depth())
    }

    #[verifier::type_invariant]
    pub closed spec fn wf(&self) -> bool {
        &&& self.width >= 2
        &&& self.nodes.len() >= 1
        &&& forall|k: int|
            0 <= k < self.nodes.len() ==> (#[trigger] self.nodes[k]).len() == pow(
                self.width as int,
                k as nat,
            )
        &&& forall|k: int, p: int|
            0 <= k < self.nodes.len() && 0 <= p < self.nodes[k].len() ==> (#[trigger] self.nodes[k][p]).children
                == (k + 1 < self.nodes.len())
    }

    /// Whether node `p` of layer `k` stands above other nodes: every node
    /// does but those of the last layer, which stand above leaves.
    pub fn is_inner(&self, k: usize, p: usize) -> (inner: bool)
        requires
            k < self.spec_depth(),
            p < pow(self.spec_width() as int, k as nat),
        ensures
            inner == self.has_children(k as int, p as int),
            inner == (k + 1 < self.spec_depth()),
    {
        proof {
            use_type_invariant(self);
        }
        self.nodes[k][p].children
    }

    /// Layer `k` of a tree has `width^k` nodes.
    pub fn layer_len(&self, k: usize) -> (n: usize)
        requires
            k < self.spec_depth(),
        ensures
            n == pow(self.spec_width() as int, k as nat),
            n == self.commitments()[k as int].len(),
    {
        proof {
            use_type_invariant(self);
        }
        self.nodes[k].len()
    }

    /// The tree of the given width over `datas`, committed to with `commit`.
    ///
    /// There is one only where the number of leaves is `width^depth` for some
    /// `depth >= 1`, with `width` at least 2, and `commit` answers every
    /// vector.
    pub fn new<F: Fn(&Vec<Vec<u8>>) -> Option<Commitment>>(
        datas: &Vec<Vec<u8>>,
        width: usize,
        commit: F,
    ) -> (r: Result<VerkleTree, VerkleTreeError>)
        requires
            forall|v: &Vec<Vec<u8>>| v.len() == width ==> call_requires(commit, (v,)),
        ensures
            r is Ok ==> {
                &&& r->Ok_0.spec_width() == width
                &&& is_tree_size(datas.len() as nat, width as nat, r->Ok_0.spec_depth())
                &&& r->Ok_0.shaped()
                &&& all_committed(
                    commit,
                    r->Ok_0.commitments(),
                    datas.deep_view(),
                    width as nat,
                )
            },
            r is Err ==> r->Err_0 == VerkleTreeError::BuildError,
            (forall|d: nat| !is_tree_size(datas.len() as nat, width as nat, d)) ==> r is Err,
            r is Err ==> (forall|d: nat| !is_tree_size(datas.len() as nat, width as nat, d))
                || commit_refused(commit, width as nat),
    {
        Self::build_tree(&commit, datas, width)
    }

    /// The vector of `width` values among `values` from `start` on.
    fn chunk(values: &Vec<Vec<u8>>, start: usize, width: usize) -> (part: Vec<Vec<u8>>)
        requires
            start + width <= values.len(),
        ensures
            part.deep_view() == values.deep_view().subrange(start as int, start + width),
            part.len() == width,
    {
        let mut part: Vec<Vec<u8>> = Vec::new();
        let mut j: usize = 0;
        while j < width
            invariant
                start + width <= values.len(),
                j <= width,
                part.len() == j,
                forall|i: int| 0 <= i < j ==> (#[trigger] part[i])@ == values[start + i]@,
            decreases width - j,
        {
            part.push(copy_bytes(&values[start + j]));
            j = j + 1;
        }
        proof {
            let want = values.deep_view().subrange(start as int, start + width);
            assert forall|i: int| 0 <= i < part.len() implies part.deep_view()[i] == want[i] by {
                assert(part.deep_view()[i] =~= part[i]@);
                assert(values.deep_view()[start + i] =~= values[start + i]@);
            }
            assert(part.deep_view() =~= want);
        }
        part
    }

    /// The serialised commitments of the nodes of a layer.
    fn encode_layer(nodes: &Vec<VerkleNode>) -> (values: Vec<Vec<u8>>)
        ensures
            values.deep_view() == layer_commitments(nodes@),
            values.len() == nodes.len(),
    {
        let mut values: Vec<Vec<u8>> = Vec::new();
        let mut j: usize = 0;
        while j < nodes.len()
            invariant
                j <= nodes.len(),
                values.len() == j,
                forall|i: int| 0 <= i < j ==> (#[trigger] values[i])@ == nodes[i].commitment@,
            decreases nodes.len() - j,
        {
            values.push(Self::map_commitment_to_vec_u8(&nodes[j].commitment));
            j = j + 1;
        }
        proof {
            assert forall|i: int| 0 <= i < values.len() implies values.deep_view()[i]
                == layer_commitments(nodes@)[i] by {
                assert(values.deep_view()[i] =~= values[i]@);
            }
            assert(values.deep_view() =~= layer_commitments(nodes@));
        }
        values
    }

    /// The bytes that stand for a commitment in the vector of its parent: its
    /// canonical serialisation.
    pub fn map_commitment_to_vec_u8(com: &Commitment) -> (bytes: Vec<u8>)
        ensures
            bytes@ == com@,
    {
        copy_bytes(&com.bytes)
    }

    /// The nodes over the vectors that `source` is cut into: the leaf groups
    /// where `source` holds the leaves, else the layer above the nodes whose
    /// commitments it holds.
    fn commit_layer<F: Fn(&Vec<Vec<u8>>) -> Option<Commitment>>(
        commit: &F,
        source: &Vec<Vec<u8>>,
        width: usize,
        children: bool,
    ) -> (r: Option<Vec<VerkleNode>>)
        requires
            width >= 1,
            source.len() % width == 0,
            forall|v: &Vec<Vec<u8>>| v.len() == width ==> call_requires(commit, (v,)),
        ensures
            r is Some ==> {
                &&& r->0.len() == source.len() / width
                &&& forall|p: int|
                    0 <= p < r->0.len() ==> {
                        &&& committed(
                            *commit,
                            source.deep_view().subrange(p * width, p * width + width),
                            (#[trigger] r->0[p]).commitment@,
                        )
                        &&& r->0[p].children == children
                    }
            },
            r is None ==> commit_refused(*commit, width as nat),
    {
        let groups: usize = source.len() / width;
        let mut layer: Vec<VerkleNode> = Vec::new();
        let mut p: usize = 0;
        proof {
            lemma_fundamental_div_mod(source.len() as int, width as int);
        }
        while p < groups
            invariant
                width >= 1,
                groups == source.len() / width,
                source.len() == width * groups,
                forall|v: &Vec<Vec<u8>>| v.len() == width ==> call_requires(commit, (v,)),
                p <= groups,
                layer.len() == p,
                forall|q: int|
                    0 <= q < p ==> {
                        &&& committed(
                            *commit,
                            source.deep_view().subrange(q * width, q * width + width),
                            (#[trigger] layer[q]).commitment@,
                        )
                        &&& layer[q].children == children
                    },
            decreases groups - p,
        {
            proof {
                assert(p * width + width <= width * groups) by (nonlinear_arith)
                    requires
                        p < groups,
                ;
            }
            let values = Self::chunk(source, p * width, width);
            match commit(&values) {
                Some(commitment) => {
                    layer.push(VerkleNode { commitment, children });
                },
                None => {
                    return None;
                },
            }
            p = p + 1;
        }
        Some(layer)
    }


    /// The tree of the given width over `datas`, layer by layer from the leaf
    /// groups up to the root.
    fn build_tree<F: Fn(&Vec<Vec<u8>>) -> Option<Commitment>>(
        commit: &F,
        datas: &Vec<Vec<u8>>,
        width: usize,
    ) -> (r: Result<VerkleTree, VerkleTreeError>)
        requires
            forall|v: &Vec<Vec<u8>>| v.len() == width ==> call_requires(commit, (v,)),
        ensures
            r is Ok ==> {
                &&& r->Ok_0.spec_width() == width
                &&& is_tree_size(datas.len() as nat, width as nat, r->Ok_0.spec_depth())
                &&& r->Ok_0.shaped()
                &&& all_committed(
                    *commit,
                    r->Ok_0.commitments(),
                    datas.deep_view(),
                    width as nat,
                )
            },
            r is Err ==> r->Err_0 == VerkleTreeError::BuildError,
            (forall|d: nat| !is_tree_size(datas.len() as nat, width as nat, d)) ==> r is Err,
            r is Err ==> (forall|d: nat| !is_tree_size(datas.len() as nat, width as nat, d))
                || commit_refused(*commit, width as nat),
    {
        let depth = match tree_depth(datas.len(), width) {
            Some(depth) => depth,
            None => {
                return Err(VerkleTreeError::BuildError);
            },
        };
        let ghost w = width as nat;
        let ghost data = datas.deep_view();
        proof {
            lemma_pow_step(w as int, (depth - 1) as nat);
            lemma_pow_positive(w as int, (depth - 1) as nat);
            lemma_mod_multiples_basic(pow(w as int, (depth - 1) as nat), w as int);
            lemma_div_multiples_vanish(pow(w as int, (depth - 1) as nat), w as int);
            assert(w * pow(w as int, (depth - 1) as nat) == pow(w as int, (depth - 1) as nat) * w)
                by (nonlinear_arith);
        }
        let leaves = match Self::commit_layer(commit, datas, width, false) {
            Some(leaves) => leaves,
            None => {
                return Err(VerkleTreeError::BuildError);
            },
        };
        let mut nodes: Vec<Vec<VerkleNode>> = Vec::new();
        nodes.push(leaves);
        let mut level: usize = depth - 1;
        proof {
            let all = tree_commitments(nodes@);
            assert forall|k: int, p: int|
                0 <= k < all.len() && 0 <= p < all[k].len() implies committed(
                *commit,
                node_vector(all, data, w, k, p),
                #[trigger] all[k][p],
            ) by {
                assert(p * w + w <= w * pow(w as int, (depth - 1) as nat)) by (nonlinear_arith)
                    requires
                        0 <= p < pow(w as int, (depth - 1) as nat),
                ;
                assert(node_vector(all, data, w, k, p) =~= data.subrange(p * w, p * w + w));
                assert(all[k][p] == nodes[0][p].commitment@);
            }
        }
        while level > 0
            invariant
                w == width,
                data == datas.deep_view(),
                width >= 2,
                forall|v: &Vec<Vec<u8>>| v.len() == width ==> call_requires(commit, (v,)),
                is_tree_size(datas.len() as nat, w, depth as nat),
                level < depth,
                nodes.len() == depth - level,
                forall|t: int|
                    0 <= t < nodes.len() ==> (#[trigger] nodes[t]).len() == pow(
                        w as int,
                        (level + t) as nat,
                    ),
                forall|t: int, p: int|
                    0 <= t < nodes.len() && 0 <= p < nodes[t].len() ==> (#[trigger] nodes[t][p]).children
                        == (t + 1 < nodes.len()),
                all_committed(*commit, tree_commitments(nodes@), data, w),
            decreases level,
        {
            proof {
                lemma_pow_step(w as int, (level - 1) as nat);
                lemma_pow_positive(w as int, (level - 1) as nat);
                lemma_mod_multiples_basic(pow(w as int, (level - 1) as nat), w as int);
                lemma_div_multiples_vanish(pow(w as int, (level - 1) as nat), w as int);
                assert(w * pow(w as int, (level - 1) as nat) == pow(w as int, (level - 1) as nat)
                    * w) by (nonlinear_arith);
                assert(nodes[0].len() == pow(w as int, level as nat));
            }
            let source = Self::encode_layer(&nodes[0]);
            let above = match Self::commit_layer(commit, &source, width, true) {
                Some(above) => above,
                None => {
                    return Err(VerkleTreeError::BuildError);
                },
            };
            let ghost before = nodes@;
            let ghost old_all = tree_commitments(before);
            nodes.insert(0, above);
            proof {
                let all = tree_commitments(nodes@);
                assert forall|t: int| 0 <= t < nodes.len() implies (#[trigger] nodes[t]).len()
                    == pow(w as int, (level - 1 + t) as nat) by {
                    if t > 0 {
                        assert(nodes[t] == before[t - 1]);
                    }
                }
                assert forall|t: int, p: int|
                    0 <= t < nodes.len() && 0 <= p < nodes[t].len() implies (#[trigger] nodes[t][p]).children
                    == (t + 1 < nodes.len()) by {
                    if t > 0 {
                        assert(nodes[t] == before[t - 1]);
                        assert(before[t - 1][p].children == (t - 1 + 1 < before.len()));
                    }
                }
                assert forall|k: int, p: int|
                    0 <= k < all.len() && 0 <= p < all[k].len() implies committed(
                    *commit,
                    node_vector(all, data, w, k, p),
                    #[trigger] all[k][p],
                ) by {
                    if k == 0 {
                        assert(p * w + w <= w * pow(w as int, (level - 1) as nat))
                            by (nonlinear_arith)
                            requires
                                0 <= p < pow(w as int, (level - 1) as nat),
                        ;
                        assert(all[1] == old_all[0]);
                        assert(node_vector(all, data, w, k, p) =~= source.deep_view().subrange(
                            p * w,
                            p * w + w,
                        ));
                        assert(all[k][p] == nodes[0][p].commitment@);
                    } else {
                        assert(nodes[k] == before[k - 1]);
                        assert(all[k] == old_all[k - 1]);
                        if k + 1 < all.len() {
                            assert(nodes[k + 1] == before[k]);
                            assert(all[k + 1] == old_all[k]);
                        }
                        assert(node_vector(all, data, w, k, p) =~= node_vector(
                            old_all,
                            data,
                            w,
                            k - 1,
                            p,
                        ));
                        assert(committed(
                            *commit,
                            node_vector(old_all, data, w, k - 1, p),
                            old_all[k - 1][p],
                        ));
                    }
                }
            }
            level = level - 1;
        }
        let tree = VerkleTree { nodes, width };
        proof {
            assert forall|k: int| 0 <= k < tree.spec_depth() implies (#[trigger] tree.commitments()[k]).len()
                == pow(width as int, k as nat) by {
                assert(tree.commitments()[k].len() == tree.nodes[k].len());
            }
        }
        Ok(tree)
    }

    /// The number of layers of nodes: the root is layer 0, the leaf groups
    /// are the last layer.
    pub fn depth(&self) -> (d: usize)
        ensures
            d == self.spec_depth(),
            d >= 1,
            self.shaped(),
    {
        proof {
            use_type_invariant(self);
            assert forall|k: int| 0 <= k < self.spec_depth() implies (#[trigger] self.commitments()[k]).len()
                == pow(self.width as int, k as nat) by {
                assert(self.commitments()[k].len() == self.nodes[k].len());
            }
        }
        self.nodes.len()
    }

    /// The commitment of the root, which stands for the whole tree.
    pub fn root_commitment(&self) -> (r: Option<Commitment>)
        ensures
            r is Some,
            r->0@ == self.commitments()[0][0],
    {
        proof {
            use_type_invariant(self);
            lemma_pow0(self.width as int);
        }
        match self.nodes.is_empty() {
            true => None,
            false => match self.nodes[0].is_empty() {
                true => None,
                false => Some(
                    Commitment { bytes: copy_bytes(&self.nodes[0][0].commitment.bytes) },
                ),
            },
        }
    }

    /// The values of `vector` at `positions`.
    fn pick(vector: &Vec<Vec<u8>>, positions: &Vec<usize>) -> (values: Vec<Vec<u8>>)
        requires
            forall|i: int| 0 <= i < positions.len() ==> positions[i] < vector.len(),
        ensures
            values.deep_view() == values_at(vector.deep_view(), positions@),
    {
        let mut values: Vec<Vec<u8>> = Vec::new();
        let mut i: usize = 0;
        while i < positions.len()
            invariant
                forall|a: int| 0 <= a < positions.len() ==> positions[a] < vector.len(),
                i <= positions.len(),
                values.len() == i,
                forall|a: int| 0 <= a < i ==> (#[trigger] values[a])@ == vector[positions[a] as int]@,
            decreases positions.len() - i,
        {
            values.push(copy_bytes(&vector[positions[i]]));
            i = i + 1;
        }
        proof {
            let want = values_at(vector.deep_view(), positions@);
            assert forall|a: int| 0 <= a < values.len() implies values.deep_view()[a]
                == want[a] by {
                assert(values.deep_view()[a] =~= values[a]@);
                assert(vector.deep_view()[positions[a] as int] =~= vector[positions[a] as int]@);
            }
            assert(values.deep_view() =~= want);
        }
        values
    }

    /// A copy of `positions`.
    fn copy_positions(positions: &Vec<usize>) -> (copy: Vec<usize>)
        ensures
            copy@ == positions@,
    {
        let mut copy: Vec<usize> = Vec::new();
        let mut i: usize = 0;
        while i < positions.len()
            invariant
                i <= positions.len(),
                copy.len() == i,
                forall|a: int| 0 <= a < i ==> copy[a] == positions[a],
            decreases positions.len() - i,
        {
            copy.push(positions[i]);
            i = i + 1;
        }
        proof {
            assert(copy@ =~= positions@);
        }
        copy
    }

    /// The opening set for the leaves `index`: one entry for each node, layer
    /// after layer from the root and by position within a layer, which is
    /// `None` where the plan opens nothing at the node. `data` holds the
    /// leaves that the tree was built from, and `open` opens a commitment to
    /// a vector at some positions.
    ///
    /// Fails where `data` has not the tree's number of leaves, where an index
    /// names no leaf, and where `open` refuses a node.
    pub fn prove<F: Fn(&Commitment, &Vec<Vec<u8>>, &Vec<usize>) -> Option<Proof>>(
        &self,
        index: Vec<usize>,
        data: &Vec<Vec<u8>>,
        open: F,
    ) -> (r: Result<Vec<Option<ProofNode>>, VerkleTreeError>)
        requires
            index.len() > 0,
            forall|c: &Commitment, v: &Vec<Vec<u8>>, s: &Vec<usize>| call_requires(open, (c, v, s)),
        ensures
            r is Err ==> r->Err_0 == VerkleTreeError::ProofGenerateError,
            !batch_fits(data.len() as nat, index@, self.spec_width(), self.spec_depth())
                ==> r is Err,
            r is Err ==> !batch_fits(
                data.len() as nat,
                index@,
                self.spec_width(),
                self.spec_depth(),
            ) || open_refused(open),
            r is Ok ==> {
                &&& r->Ok_0.len() == layer_offset(self.spec_width(), self.spec_depth())
                &&& entries_ok(
                    open,
                    self.commitments(),
                    data.deep_view(),
                    self.spec_width(),
                    index_plan(index@, self.spec_width(), self.spec_depth()),
                    r->Ok_0@,
                    self.spec_depth() as int,
                    0,
                )
            },
            r is Ok ==> structure_ok(
                self.commitments()[0][0],
                r->Ok_0@,
                self.spec_width(),
                index@,
                self.spec_depth(),
                leaves_at(data.deep_view(), index@),
            ),
    {
        proof {
            use_type_invariant(self);
        }
        let ghost all = tree_commitments(self.nodes@);
        let ghost w = self.width as nat;
        let ghost leaves = data.deep_view();
        let ghost wanted = index@;
        let width = self.width;
        let depth = self.nodes.len();
        let size = match checked_pow(width, depth) {
            Some(size) => size,
            None => {
                return Err(VerkleTreeError::ProofGenerateError);
            },
        };
        if data.len() != size {
            return Err(VerkleTreeError::ProofGenerateError);
        }
        let mut i: usize = 0;
        while i < index.len()
            invariant
                i <= index.len(),
                size == data.len(),
                forall|a: int| 0 <= a < i ==> index[a] < size,
            decreases index.len() - i,
        {
            if index[i] >= size {
                return Err(VerkleTreeError::ProofGenerateError);
            }
            i = i + 1;
        }
        let plan = create_index_for_proof(index, width, depth);
        let ghost steps = index_plan(wanted, w, depth as nat);
        proof {
            assert(plan.deep_view().len() == plan.len());
        }
        let mut out: Vec<Option<ProofNode>> = Vec::new();
        let mut k: usize = 0;
        while k < depth
            invariant
                self.wf(),
                all == tree_commitments(self.nodes@),
                w == self.width,
                width == self.width,
                leaves == data.deep_view(),
                depth == self.nodes.len(),
                data.len() == pow(w as int, depth as nat),
                forall|c: &Commitment, v: &Vec<Vec<u8>>, s: &Vec<usize>|
                    call_requires(open, (c, v, s)),
                wanted == index@,
                wanted.len() > 0,
                forall|a: int| 0 <= a < wanted.len() ==> wanted[a] < pow(w as int, depth as nat),
                steps == index_plan(wanted, w, depth as nat),
                plan.deep_view() == steps,
                plan.len() == depth,
                k <= depth,
                out.len() == layer_offset(w, k as nat),
                entries_ok(open, all, leaves, w, steps, out@, k as int, 0),
            decreases depth - k,
        {
            let count = self.nodes[k].len();
            proof {
                assert(count == pow(w as int, k as nat));
                assert(steps[k as int] == plan[k as int].deep_view());
                assert(steps[k as int].len() == pow(w as int, k as nat));
                assert(plan[k as int].len() == count);
                lemma_pow_step(w as int, k as nat);
                assert(all[k as int].len() == count);
            }
            let inner = k + 1 < depth;
            let source = if inner {
                Self::encode_layer(&self.nodes[k + 1])
            } else {
                Self::encode_layer(&self.nodes[k])
            };
            let mut p: usize = 0;
            while p < count
                invariant
                    self.wf(),
                    all == tree_commitments(self.nodes@),
                    w == self.width,
                    width == self.width,
                    leaves == data.deep_view(),
                    depth == self.nodes.len(),
                    data.len() == pow(w as int, depth as nat),
                    forall|c: &Commitment, v: &Vec<Vec<u8>>, s: &Vec<usize>|
                        call_requires(open, (c, v, s)),
                    steps == index_plan(wanted, w, depth as nat),
                    plan.deep_view() == steps,
                    plan.len() == depth,
                    k < depth,
                    inner == (k + 1 < depth),
                    inner ==> source.deep_view() == all[k + 1] && source.len() == pow(
                        w as int,
                        (k + 1) as nat,
                    ),
                    pow(w as int, (k + 1) as nat) == w * pow(w as int, k as nat),
                    count == self.nodes[k as int].len(),
                    count == all[k as int].len(),
                    count == pow(w as int, k as nat),
                    plan[k as int].len() == count,
                    steps[k as int] == plan[k as int].deep_view(),
                    p <= count,
                    out.len() == layer_offset(w, k as nat) + p,
                    entries_ok(open, all, leaves, w, steps, out@, k as int, p as int),
                decreases count - p,
            {
                let positions = &plan[k][p];
                let node = &self.nodes[k][p];
                let ghost before = out@;
                proof {
                    assert(steps[k as int][p as int] =~= positions@);
                    let up = (depth - 1 - k) as nat;
                    assert(positions@ == node_plan(wanted, w, depth as nat, k as nat, p as int));
                    lemma_offsets_in(touched(wanted, w, up), p * w, w);
                    assert(p * w + w <= w * pow(w as int, k as nat)) by (nonlinear_arith)
                        requires
                            p < pow(w as int, k as nat),
                    ;
                    assert(all[k as int][p as int] == node.commitment@);
                }
                if positions.len() == 0 {
                    out.push(None);
                } else {
                    let vector = if inner {
                        Self::chunk(&source, p * width, width)
                    } else {
                        Self::chunk(data, p * width, width)
                    };
                    proof {
                        assert(vector.deep_view() =~= node_vector(
                            all,
                            leaves,
                            w,
                            k as int,
                            p as int,
                        ));
                    }
                    let values = Self::pick(&vector, positions);
                    let indices = Self::copy_positions(positions);
                    match open(&node.commitment, &vector, &indices) {
                        Some(proof) => {
                            let commitment = Commitment { bytes: copy_bytes(&node.commitment.bytes) };
                            let opening = ProofNode { commitment, proof, indices, values };
                            out.push(Some(opening));
                        },
                        None => {
                            return Err(VerkleTreeError::ProofGenerateError);
                        },
                    }
                }
                proof {
                    let at = layer_offset(w, k as nat) + p;
                    assert(out@ =~= before.push(out[at as int]));
                    assert(entry_ok(
                        open,
                        all[k as int][p as int],
                        node_vector(all, leaves, w, k as int, p as int),
                        steps[k as int][p as int],
                        out[at as int],
                    ));
                    assert forall|kk: int, pp: int|
                        0 <= kk <= k && 0 <= pp < all[kk].len() && (kk < k || pp < p + 1) && kk
                            < all.len() implies entry_ok(
                        open,
                        #[trigger] all[kk][pp],
                        node_vector(all, leaves, w, kk, pp),
                        steps[kk][pp],
                        out@[layer_offset(w, kk as nat) + pp],
                    ) by {
                        if kk == k && pp == p {
                        } else {
                            lemma_offset_below(w, kk as nat, pp, k as nat, p as int);
                            assert(out@[layer_offset(w, kk as nat) + pp] == before[layer_offset(
                                w,
                                kk as nat,
                            ) + pp]);
                        }
                    }
                }
                p = p + 1;
            }
            k = k + 1;
        }
        proof {
            let claimed = leaves_at(leaves, wanted);
            assert forall|a: int| 0 <= a < wanted.len() implies claimed.contains(
                leaves[#[trigger] wanted[a] as int],
            ) by {
                assert(claimed[a] == leaves[wanted[a] as int]);
            }
            assert forall|t: int| 0 <= t < all.len() implies (#[trigger] all[t]).len() == pow(
                w as int,
                t as nat,
            ) by {
                assert(all[t].len() == self.nodes[t].len());
            }
            lemma_proved_batch_is_in_order(open, all, leaves, w, wanted, out@, claimed);
        }
        Ok(out)
    }

    /// Whether the batch proof `tree_proofs` shows that the tree with the
    /// commitment `root`, of the given width and depth, holds at the leaves
    /// `indices` the values `data`. Entries that are `None` are passed over,
    /// and `check` says of each opening whether its proof holds.
    ///
    /// The batch proof is accepted where it is in order and `check` accepts
    /// every opening.
    pub fn verify<F: Fn(&ProofNode) -> bool>(
        root: Commitment,
        tree_proofs: Vec<Option<ProofNode>>,
        width: usize,
        indices: Vec<usize>,
        depth: usize,
        data: Vec<Vec<u8>>,
        check: F,
    ) -> (ok: bool)
        requires
            forall|opening: &ProofNode| call_requires(check, (opening,)),
        ensures
            ok ==> structure_ok(
                root@,
                tree_proofs@,
                width as nat,
                indices@,
                depth as nat,
                data.deep_view(),
            ),
            ok ==> forall|i: int|
                0 <= i < compact(tree_proofs@).len() ==> call_ensures(
                    check,
                    (&#[trigger] compact(tree_proofs@)[i],),
                    true,
                ),
            !ok ==> !structure_ok(
                root@,
                tree_proofs@,
                width as nat,
                indices@,
                depth as nat,
                data.deep_view(),
            ) || exists|i: int|
                0 <= i < compact(tree_proofs@).len() && call_ensures(
                    check,
                    (&#[trigger] compact(tree_proofs@)[i],),
                    false,
                ),
    {
        let ghost wanted = indices@;
        let ghost all = compact(tree_proofs@);
        let ghost leaves = data.deep_view();
        let openings = present(&tree_proofs);
        if openings.len() == 0 {
            return false;
        }
        if !same_bytes(&root.bytes, &openings[0].commitment.bytes) {
            return false;
        }
        if width < 2 || depth == 0 {
            return false;
        }
        let size = match checked_pow(width, depth) {
            Some(size) => size,
            None => {
                return false;
            },
        };
        let mut i: usize = 0;
        while i < indices.len()
            invariant
                i <= indices.len(),
                size == pow(width as int, depth as nat),
                forall|a: int| 0 <= a < i ==> indices[a] < size,
            decreases indices.len() - i,
        {
            if indices[i] >= size {
                return false;
            }
            i = i + 1;
        }
        let plan = create_index_for_proof(indices, width, depth);
        match count_openings(&plan) {
            Some(count) if count == openings.len() => {},
            _ => {
                return false;
            },
        }
        let expected = collect_expected(&openings, &data);
        proof {
            let want = expected_values(all, leaves);
            assert forall|value: Seq<u8>| among(expected@, value) <==> want.contains(value) by {
                if among(expected@, value) {
                    let a = choose|a: int| 0 <= a < expected.len() && (#[trigger] expected[a])@ == value;
                    if a < openings.len() {
                        assert(want[a] == value);
                    } else {
                        let b = a - openings.len();
                        assert(expected[openings.len() + b]@ == data[b]@);
                        assert(leaves[b] =~= data[b]@);
                        assert(want[a] == value);
                    }
                }
                if want.contains(value) {
                    let a = choose|a: int| 0 <= a < want.len() && want[a] == value;
                    if a < openings.len() {
                        assert(expected[a]@ == value);
                    } else {
                        assert(leaves[a - openings.len()] =~= data[a - openings.len()]@);
                        assert(expected[openings.len() + (a - openings.len())]@ == value);
                    }
                }
            }
        }
        let mut n: usize = 0;
        while n < openings.len()
            invariant
                all == compact(tree_proofs@),
                leaves == data.deep_view(),
                openings.len() == all.len(),
                forall|a: int| 0 <= a < openings.len() ==> *(#[trigger] openings[a]) == all[a],
                forall|opening: &ProofNode| call_requires(check, (opening,)),
                all.len() > 0,
                all[0]@.commitment == root@,
                width >= 2,
                depth >= 1,
                wanted == indices@,
                batch_fits(
                    pow(width as int, depth as nat) as nat,
                    wanted,
                    width as nat,
                    depth as nat,
                ),
                pow(width as int, depth as nat) <= usize::MAX,
                opened_nodes(index_plan(wanted, width as nat, depth as nat)) == all.len(),
                forall|value: Seq<u8>|
                    among(expected@, value) <==> expected_values(all, leaves).contains(value),
                n <= openings.len(),
                forall|a: int| 0 <= a < n ==> positions_ok((#[trigger] all[a])@, width as nat),
                forall|a: int|
                    0 <= a < n ==> linked((#[trigger] all[a])@, expected_values(all, leaves)),
                forall|a: int| 0 <= a < n ==> call_ensures(check, (&#[trigger] all[a],), true),
            decreases openings.len() - n,
        {
            let opening = openings[n];
            proof {
                assert(*opening == all[n as int]);
            }
            if !positions_in_order(opening, width) {
                return false;
            }
            let linked_here = is_linked(opening, &expected);
            proof {
                let want = expected_values(all, leaves);
                if linked_here {
                    assert forall|i: int| 0 <= i < opening@.values.len() implies want.contains(
                        #[trigger] opening@.values[i],
                    ) by {
                        assert(opening@.values[i] =~= opening.values[i]@);
                        assert(among(expected@, opening.values[i]@));
                    }
                } else {
                    let i = choose|i: int|
                        0 <= i < opening.values.len() && !among(
                            expected@,
                            (#[trigger] opening.values[i])@,
                        );
                    assert(opening@.values[i] =~= opening.values[i]@);
                    assert(!want.contains(opening@.values[i]));
                }
            }
            if !linked_here {
                return false;
            }
            if !check(opening) {
                return false;
            }
            n = n + 1;
        }
        true
    }
}

/// A node that comes before another in the order of the opening set has
/// the smaller index there.
pub proof fn lemma_offset_below(width: nat, kk: nat, pp: int, k: nat, p: int)
    requires
        kk <= k,
        0 <= pp,
        0 <= p,
        kk < k || pp < p,
        kk < k ==> pp < pow(width as int, kk),
    ensures
        layer_offset(width, kk) + pp < layer_offset(width, k) + p,
{
    if kk < k {
        lemma_offset_grows(width, kk + 1, k);
        assert(layer_offset(width, kk + 1) == layer_offset(width, kk) + pow(
            width as int,
            kk,
        ) as nat);
    }
}

/// Later layers start later in the opening set.
pub proof fn lemma_offset_grows(width: nat, a: nat, b: nat)
    requires
        a <= b,
    ensures
        layer_offset(width, a) <= layer_offset(width, b),
    decreases b - a,
{
    if a < b {
        lemma_offset_grows(width, a, (b - 1) as nat);
    }
}

/// Every place in the opening set is that of a node.
pub proof fn lemma_node_at(width: nat, depth: nat, n: int) -> (node: (int, int))
    requires
        width >= 1,
        0 <= n < layer_offset(width, depth),
    ensures
        0 <= node.0 < depth,
        0 <= node.1 < pow(width as int, node.0 as nat),
        n == layer_offset(width, node.0 as nat) + node.1,
    decreases depth,
{
    lemma_pow_positive(width as int, (depth - 1) as nat);
    if n < layer_offset(width, (depth - 1) as nat) {
        lemma_node_at(width, (depth - 1) as nat, n)
    } else {
        (depth - 1, n - layer_offset(width, (depth - 1) as nat))
    }
}

/// The entries before node `m` of layer `k` hold as many openings as the
/// plan opens nodes before it.
pub proof fn lemma_entries_count<F: Fn(&Commitment, &Vec<Vec<u8>>, &Vec<usize>) -> Option<Proof>>(
    open: F,
    commitments: Seq<Seq<Seq<u8>>>,
    data: Seq<Seq<u8>>,
    width: nat,
    plan: Seq<Seq<Seq<usize>>>,
    entries: Seq<Option<ProofNode>>,
    k: nat,
    m: int,
)
    requires
        width >= 1,
        k < commitments.len() || (k == commitments.len() && m == 0),
        commitments.len() == plan.len(),
        forall|t: int|
            0 <= t < commitments.len() ==> (#[trigger] commitments[t]).len() == pow(
                width as int,
                t as nat,
            ) && plan[t].len() == commitments[t].len(),
        0 <= m,
        k < commitments.len() ==> m <= commitments[k as int].len(),
        entries.len() == layer_offset(width, commitments.len()),
        entries_ok(open, commitments, data, width, plan, entries, commitments.len() as int, 0),
    ensures
        layer_offset(width, k) + m <= entries.len(),
        compact(entries.take(layer_offset(width, k) + m)).len() == opened_nodes(
            plan.take(k as int),
        ) + if k < plan.len() {
            opened_in_layer(plan[k as int].take(m))
        } else {
            0
        },
    decreases k, m,
{
    let depth = commitments.len();
    let at = layer_offset(width, k) + m;
    if k < depth {
        lemma_offset_grows(width, k + 1, depth);
        lemma_pow_positive(width as int, k);
    }
    if m > 0 {
        lemma_entries_count(open, commitments, data, width, plan, entries, k, m - 1);
        assert(entries.take(at).drop_last() =~= entries.take(at - 1));
        assert(entries.take(at).last() == entries[at - 1]);
        assert(plan[k as int].take(m).drop_last() =~= plan[k as int].take(m - 1));
        assert(plan[k as int].take(m).last() == plan[k as int][m - 1]);
        assert(entry_ok(
            open,
            commitments[k as int][m - 1],
            node_vector(commitments, data, width, k as int, m - 1),
            plan[k as int][m - 1],
            entries[layer_offset(width, k) + (m - 1)],
        ));
    } else if k > 0 {
        let above = (k - 1) as nat;
        let size = commitments[above as int].len() as int;
        lemma_entries_count(open, commitments, data, width, plan, entries, above, size);
        assert(plan[above as int].take(size) =~= plan[above as int]);
        assert(plan.take(k as int).drop_last() =~= plan.take(above as int));
        assert(plan.take(k as int).last() == plan[above as int]);
        if k < plan.len() {
            assert(plan[k as int].take(0) =~= Seq::empty());
        }
    } else {
        assert(entries.take(0) =~= Seq::empty());
        assert(plan.take(0) =~= Seq::empty());
        assert(plan[0].take(0) =~= Seq::empty());
    }
}

/// The opening set that a tree gives for a batch of leaves is in order:
/// against the tree's root, for the batch, and for any claimed leaves among
/// which are those of the batch.
pub proof fn lemma_proved_batch_is_in_order<
    F: Fn(&Commitment, &Vec<Vec<u8>>, &Vec<usize>) -> Option<Proof>,
>(
    open: F,
    commitments: Seq<Seq<Seq<u8>>>,
    data: Seq<Seq<u8>>,
    width: nat,
    indices: Seq<usize>,
    entries: Seq<Option<ProofNode>>,
    claimed: Seq<Seq<u8>>,
)
    requires
        width >= 2,
        commitments.len() >= 1,
        forall|k: int|
            0 <= k < commitments.len() ==> (#[trigger] commitments[k]).len() == pow(
                width as int,
                k as nat,
            ),
        indices.len() > 0,
        batch_fits(data.len(), indices, width, commitments.len()),
        pow(width as int, commitments.len()) <= usize::MAX,
        entries.len() == layer_offset(width, commitments.len()),
        entries_ok(
            open,
            commitments,
            data,
            width,
            index_plan(indices, width, commitments.len()),
            entries,
            commitments.len() as int,
            0,
        ),
        forall|i: int| 0 <= i < indices.len() ==> claimed.contains(data[#[trigger] indices[i] as int]),
    ensures
        structure_ok(commitments[0][0], entries, width, indices, commitments.len(), claimed),
{
    let depth = commitments.len();
    let plan = index_plan(indices, width, depth);
    let openings = compact(entries);
    let expected = expected_values(openings, claimed);
    lemma_pow0(width as int);
    lemma_pow1(width as int);
    lemma_pow_increases(width, 1, depth);
    assert forall|t: int| 0 <= t < depth implies (#[trigger] commitments[t]).len() == pow(
        width as int,
        t as nat,
    ) && plan[t].len() == commitments[t].len() by {
        lemma_pow_positive(width as int, t as nat);
    }
    // As many openings as the plan opens nodes.
    lemma_entries_count(open, commitments, data, width, plan, entries, depth, 0);
    assert(entries.take(entries.len() as int) =~= entries);
    assert(plan.take(depth as int) =~= plan);
    // The first opening is of the root.
    let first = ancestor(indices[0] as int, width, (depth - 1) as nat);
    lemma_ancestor_below_root(indices[0] as int, width, depth);
    lemma_plan_entry(indices, width, depth, 0, 0, first as usize);
    assert(node_plan(indices, width, depth, 0, 0).contains(first as usize));
    assert(plan[0][0] == node_plan(indices, width, depth, 0, 0));
    assert(entry_ok(
        open,
        commitments[0][0],
        node_vector(commitments, data, width, 0, 0),
        plan[0][0],
        entries[layer_offset(width, 0) + 0int],
    ));
    lemma_offset_grows(width, 1, depth);
    lemma_compact_first(entries);
    // Every opening is one of a node.
    assert forall|i: int| 0 <= i < openings.len() implies positions_ok(
        (#[trigger] openings[i])@,
        width,
    ) && linked(openings[i]@, expected) by {
        let n = lemma_compact_from(entries, i);
        let (k, p) = lemma_node_at(width, depth, n);
        let positions = plan[k][p];
        let vector = node_vector(commitments, data, width, k, p);
        assert(entry_ok(
            open,
            commitments[k][p],
            vector,
            positions,
            entries[layer_offset(width, k as nat) + p],
        ));
        assert(positions == node_plan(indices, width, depth, k as nat, p));
        let up = (depth - 1 - k) as nat;
        lemma_offsets_in(touched(indices, width, up), p * width, width);
        let values = openings[i]@.values;
        assert(values == values_at(vector, positions));
        assert forall|a: int| 0 <= a < values.len() implies expected.contains(
            #[trigger] values[a],
        ) by {
            let j = positions[a];
            assert(positions.contains(j));
            if k + 1 < depth {
                lemma_opened_child_opens(indices, width, depth, k as nat, p, j);
                let child = p * width + j;
                lemma_pow_step(width as int, k as nat);
                assert(child < width * pow(width as int, k as nat)) by (nonlinear_arith)
                    requires
                        0 <= p < pow(width as int, k as nat),
                        0 <= j < width,
                        child == p * width + j,
                ;
                assert(plan[k + 1][child] == node_plan(indices, width, depth, (k + 1) as nat, child));
                let m = layer_offset(width, (k + 1) as nat) + child;
                lemma_offset_grows(width, (k + 2) as nat, depth);
                assert(entry_ok(
                    open,
                    commitments[k + 1][child],
                    node_vector(commitments, data, width, k + 1, child),
                    plan[k + 1][child],
                    entries[layer_offset(width, (k + 1) as nat) + child],
                ));
                lemma_compact_keeps(entries, m as int);
                let o = entries[m as int]->0;
                let c = choose|c: int| 0 <= c < openings.len() && openings[c] == o;
                assert(expected[c] == values[a]);
            } else {
                lemma_plan_entry(indices, width, depth, k as nat, p, j);
                let leaf = choose|leaf: int|
                    0 <= leaf < indices.len() && #[trigger] ancestor(
                        indices[leaf] as int,
                        width,
                        0,
                    ) == p * width + j;
                assert(indices[leaf] as int == p * width + j);
                assert(claimed.contains(data[indices[leaf] as int]));
                let c = choose|c: int| 0 <= c < claimed.len() && claimed[c] == data[indices[leaf] as int];
                assert(expected[openings.len() + c] == values[a]);
            }
        }
    }
}

} // verus!
