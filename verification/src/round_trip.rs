//! What proving gives, checking takes.
//!
//! The opening set that a tree gives for a batch of leaves is in order
//! against the tree's root, the batch and the leaves of the batch. What is
//! left for the backend to say is whether each opening holds.

use crate::curve::encoding;
use crate::index_plan::{
    ancestor, batch_fits, index_plan, lemma_offsets_in, lemma_plan_entry, lemma_pow_step,
    node_plan, opened_in_layer, opened_nodes, touched,
};
use crate::opening_set::{
    compact, lemma_compact_concat, lemma_compact_first, lemma_compact_from, lemma_compact_keeps,
};
use crate::verkle_tree::{
    all_open, commitment_encodings, expected_values, layer_openings, linked,
    opened_points, opening_entry, openings_upto, positions_ok, structure_ok, well_formed,
    NodeView, OpeningView,
};
use kzg_commitment::KZGCommitment;
use vstd::arithmetic::div_mod::*;
use vstd::arithmetic::power::*;
use vstd::prelude::*;

verus! {

/// The openings of the first `n` nodes of a layer are as many as the plan
/// opens among them.
pub proof fn lemma_layer_count(
    kzg: KZGCommitment,
    layers: Seq<Seq<NodeView>>,
    data: Seq<nat>,
    width: nat,
    plan: Seq<Seq<Seq<usize>>>,
    k: int,
    n: int,
)
    requires
        0 <= n <= layers[k].len(),
        layers[k].len() == plan[k].len(),
    ensures
        compact(layer_openings(kzg, layers, data, width, plan, k).take(n)).len()
            == opened_in_layer(plan[k].take(n)),
    decreases n,
{
    let row = layer_openings(kzg, layers, data, width, plan, k);
    if n > 0 {
        lemma_layer_count(kzg, layers, data, width, plan, k, n - 1);
        assert(row.take(n).drop_last() =~= row.take(n - 1));
        assert(plan[k].take(n).drop_last() =~= plan[k].take(n - 1));
        assert(row.take(n).last() == row[n - 1]);
        assert(plan[k].take(n).last() == plan[k][n - 1]);
    } else {
        assert(row.take(0) =~= Seq::empty());
        assert(plan[k].take(0) =~= Seq::empty());
    }
}

/// The openings of the first `n` layers are as many as the plan opens nodes
/// in them.
pub proof fn lemma_opening_count(
    kzg: KZGCommitment,
    layers: Seq<Seq<NodeView>>,
    data: Seq<nat>,
    width: nat,
    plan: Seq<Seq<Seq<usize>>>,
    n: nat,
)
    requires
        n <= plan.len(),
        forall|k: int| 0 <= k < n ==> (#[trigger] layers[k]).len() == plan[k].len(),
    ensures
        compact(openings_upto(kzg, layers, data, width, plan, n)).len() == opened_nodes(
            plan.take(n as int),
        ),
    decreases n,
{
    if n == 0 {
        assert(plan.take(0) =~= Seq::empty());
    } else {
        let k = n - 1;
        let row = layer_openings(kzg, layers, data, width, plan, k);
        lemma_opening_count(kzg, layers, data, width, plan, k as nat);
        lemma_compact_concat(openings_upto(kzg, layers, data, width, plan, k as nat), row);
        lemma_layer_count(kzg, layers, data, width, plan, k, layers[k].len() as int);
        assert(row.take(layers[k].len() as int) =~= row);
        assert(plan[k].take(layers[k].len() as int) =~= plan[k]);
        assert(plan.take(n as int).drop_last() =~= plan.take(k));
        assert(plan.take(n as int).last() == plan[k]);
    }
}

/// The entry of every node of the first `n` layers is among their entries.
pub proof fn lemma_entry_listed(
    kzg: KZGCommitment,
    layers: Seq<Seq<NodeView>>,
    data: Seq<nat>,
    width: nat,
    plan: Seq<Seq<Seq<usize>>>,
    n: nat,
    k: int,
    p: int,
) -> (at: int)
    requires
        0 <= k < n,
        0 <= p < layers[k].len(),
    ensures
        0 <= at < openings_upto(kzg, layers, data, width, plan, n).len(),
        openings_upto(kzg, layers, data, width, plan, n)[at] == opening_entry(
            kzg,
            layers,
            data,
            width,
            k,
            p,
            plan[k][p],
        ),
        k == 0 && p == 0 ==> at == 0,
    decreases n,
{
    let above = openings_upto(kzg, layers, data, width, plan, (n - 1) as nat);
    let row = layer_openings(kzg, layers, data, width, plan, n - 1);
    if k == n - 1 {
        assert((above + row)[above.len() + p] == row[p]);
        if k == 0 {
            assert(above.len() == 0);
        }
        above.len() + p
    } else {
        let at = lemma_entry_listed(kzg, layers, data, width, plan, (n - 1) as nat, k, p);
        assert((above + row)[at] == above[at]);
        at
    }
}

/// Every entry of the first `n` layers is the entry of one of their nodes.
pub proof fn lemma_entry_of_node(
    kzg: KZGCommitment,
    layers: Seq<Seq<NodeView>>,
    data: Seq<nat>,
    width: nat,
    plan: Seq<Seq<Seq<usize>>>,
    n: nat,
    at: int,
) -> (node: (int, int))
    requires
        0 <= at < openings_upto(kzg, layers, data, width, plan, n).len(),
    ensures
        0 <= node.0 < n,
        0 <= node.1 < layers[node.0].len(),
        openings_upto(kzg, layers, data, width, plan, n)[at] == opening_entry(
            kzg,
            layers,
            data,
            width,
            node.0,
            node.1,
            plan[node.0][node.1],
        ),
    decreases n,
{
    let above = openings_upto(kzg, layers, data, width, plan, (n - 1) as nat);
    let row = layer_openings(kzg, layers, data, width, plan, n - 1);
    if at < above.len() {
        assert((above + row)[at] == above[at]);
        lemma_entry_of_node(kzg, layers, data, width, plan, (n - 1) as nat, at)
    } else {
        assert((above + row)[at] == row[at - above.len()]);
        (n - 1, at - above.len())
    }
}

/// A leaf of a tree lies below one of the `width` children of the root.
pub proof fn lemma_ancestor_below_root(leaf: int, width: nat, depth: nat)
    requires
        width >= 1,
        depth >= 1,
        0 <= leaf < pow(width as int, depth),
    ensures
        0 <= ancestor(leaf, width, (depth - 1) as nat) < width,
{
    let below = pow(width as int, (depth - 1) as nat);
    lemma_pow_positive(width as int, (depth - 1) as nat);
    lemma_pow_step(width as int, (depth - 1) as nat);
    lemma_multiply_divide_lt(leaf, below, width as int);
    lemma_div_pos_is_pos(leaf, below);
}

/// The node one layer further down above a leaf is a child of the node
/// above the leaf.
pub proof fn lemma_ancestor_step(leaf: int, width: nat, up: nat)
    requires
        width >= 1,
        up >= 1,
        0 <= leaf,
    ensures
        ancestor(leaf, width, (up - 1) as nat) / (width as int) == ancestor(leaf, width, up),
        0 <= ancestor(leaf, width, (up - 1) as nat),
{
    let w = width as int;
    lemma_pow_positive(w, (up - 1) as nat);
    lemma_pow_step(w, (up - 1) as nat);
    lemma_div_denominator(leaf, pow(w, (up - 1) as nat), w);
    lemma_div_pos_is_pos(leaf, pow(w, (up - 1) as nat));
    assert(pow(w, (up - 1) as nat) * w == w * pow(w, (up - 1) as nat)) by (nonlinear_arith);
}

/// Where the plan opens a child of an inner node, it opens something at
/// that child.
pub proof fn lemma_opened_child_opens(
    indices: Seq<usize>,
    width: nat,
    depth: nat,
    k: nat,
    p: int,
    j: usize,
)
    requires
        1 <= width <= usize::MAX,
        k + 1 < depth,
        0 <= p,
        node_plan(indices, width, depth, k, p).contains(j),
    ensures
        node_plan(indices, width, depth, k + 1, p * width + j).len() > 0,
{
    let up = (depth - 1 - k) as nat;
    lemma_plan_entry(indices, width, depth, k, p, j);
    let i = choose|i: int|
        0 <= i < indices.len() && #[trigger] ancestor(indices[i] as int, width, up) == p * width
            + j;
    let q = ancestor(indices[i] as int, width, (up - 1) as nat);
    lemma_ancestor_step(indices[i] as int, width, up);
    let child = p * width + j;
    lemma_fundamental_div_mod(q, width as int);
    lemma_mod_bound(q, width as int);
    let offset = (q % (width as int)) as usize;
    assert(q == child * width + offset) by {
        assert(width * (q / (width as int)) == (q / (width as int)) * width) by (nonlinear_arith);
    }
    lemma_plan_entry(indices, width, depth, k + 1, child, offset);
    assert(ancestor(indices[i] as int, width, (depth - 1 - (k + 1)) as nat) == child * width
        + offset);
    assert(node_plan(indices, width, depth, k + 1, child).contains(offset));
}

/// The opening set that a tree gives for a batch of leaves is in order:
/// against the tree's root, for the batch, and for any claimed leaves among
/// which are those of the batch.
pub proof fn lemma_proved_batch_is_in_order(
    kzg: KZGCommitment,
    layers: Seq<Seq<NodeView>>,
    data: Seq<nat>,
    width: nat,
    indices: Seq<usize>,
    claimed: Seq<nat>,
)
    requires
        well_formed(layers, width, kzg),
        indices.len() > 0,
        batch_fits(data.len(), indices, width, layers.len()),
        pow(width as int, layers.len()) <= usize::MAX,
        all_open(kzg, layers, data, width, index_plan(indices, width, layers.len())),
        forall|i: int| 0 <= i < indices.len() ==> claimed.contains(data[#[trigger] indices[i] as int]),
    ensures
        structure_ok(
            layers[0][0].commitment,
            openings_upto(
                kzg,
                layers,
                data,
                width,
                index_plan(indices, width, layers.len()),
                layers.len(),
            ),
            width,
            indices,
            layers.len(),
            claimed,
        ),
{
    let depth = layers.len();
    let plan = index_plan(indices, width, depth);
    let entries = openings_upto(kzg, layers, data, width, plan, depth);
    let openings = compact(entries);
    let expected = expected_values(openings, claimed);
    lemma_pow0(width as int);
    // As many openings as the plan opens nodes.
    assert forall|k: int| 0 <= k < depth implies (#[trigger] layers[k]).len() == plan[k].len() by {
        lemma_pow_positive(width as int, k as nat);
    }
    lemma_opening_count(kzg, layers, data, width, plan, depth);
    assert(plan.take(depth as int) =~= plan);
    // The first opening is of the root.
    let first = ancestor(indices[0] as int, width, (depth - 1) as nat);
    lemma_ancestor_below_root(indices[0] as int, width, depth);
    lemma_plan_entry(indices, width, depth, 0, 0, first as usize);
    assert(node_plan(indices, width, depth, 0, 0).contains(first as usize));
    assert(plan[0][0] == node_plan(indices, width, depth, 0, 0));
    let at_root = lemma_entry_listed(kzg, layers, data, width, plan, depth, 0, 0);
    lemma_compact_first(entries);
    // Every opening is one of a node.
    assert forall|i: int| 0 <= i < openings.len() implies positions_ok(
        (#[trigger] openings[i]).point,
        width,
    ) && crate::lagrange::interpolates(openings[i].point) && linked(openings[i], expected) by {
        let n = lemma_compact_from(entries, i);
        let (k, p) = lemma_entry_of_node(kzg, layers, data, width, plan, depth, n);
        lemma_pow_positive(width as int, k as nat);
        let positions = plan[k][p];
        assert(positions == node_plan(indices, width, depth, k as nat, p));
        let up = (depth - 1 - k) as nat;
        lemma_offsets_in(touched(indices, width, up), p * width, width);
        let points = opened_points(layers, data, width, k, p, positions);
        assert(openings[i].point == points);
        assert(crate::verkle_tree::node_opens(kzg, layers, data, width, k, p, positions));
        assert forall|a: int| 0 <= a < points.len() implies expected.contains(
            (#[trigger] points[a]).1,
        ) by {
            let j = positions[a];
            assert(positions.contains(j));
            if k + 1 < depth {
                lemma_opened_child_opens(indices, width, depth, k as nat, p, j);
                let child = p * width + j;
                lemma_pow_step(width as int, k as nat);
                assert(child < width * pow(width as int, k as nat)) by (nonlinear_arith)
                    requires
                        0 <= p < pow(width as int, k as nat),
                        0 <= j < width,
                        child == p * width + j,
                ;
                assert(plan[k + 1][child] == node_plan(indices, width, depth, (k + 1) as nat, child));
                let m = lemma_entry_listed(kzg, layers, data, width, plan, depth, k + 1, child);
                lemma_compact_keeps(entries, m);
                let o = entries[m]->0;
                let c = choose|c: int| 0 <= c < openings.len() && openings[c] == o;
                assert(commitment_encodings(openings)[c] == encoding(
                    layers[k + 1][child].commitment,
                ));
                assert(expected[c] == points[a].1);
            } else {
                lemma_plan_entry(indices, width, depth, k as nat, p, j);
                let leaf = choose|leaf: int|
                    0 <= leaf < indices.len() && #[trigger] ancestor(
                        indices[leaf] as int,
                        width,
                        0,
                    ) == p * width + j;
                assert(indices[leaf] as int == p * width + j);
                assert(claimed.contains(data[indices[leaf] as int]));
                let c = choose|c: int| 0 <= c < claimed.len() && claimed[c] == data[indices[leaf] as int];
                assert(expected[commitment_encodings(openings).len() + c] == points[a].1);
            }
        }
    }
}

} // verus!
