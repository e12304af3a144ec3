//! The index plan of a batch opening.
//!
//! A tree of width `w` and depth `D` has `D` layers of nodes; layer `k` holds
//! `w^k` nodes, and the children of the last layer are the `w^D` leaves. For
//! a batch of leaf indices the plan records, node by node, the child
//! positions that have to be opened so that every requested leaf is linked
//! to the root.

use vstd::arithmetic::div_mod::*;
use vstd::arithmetic::power::*;
use vstd::prelude::*;

verus! {

/// `s` is ascending and holds no value twice.
pub open spec fn strictly_increasing(s: Seq<usize>) -> bool {
    forall|a: int, b: int| 0 <= a < b < s.len() ==> s[a] < s[b]
}

/// The values that occur in `s`.
pub open spec fn positions_of(s: Seq<usize>) -> Set<int> {
    Set::new(|q: int| exists|i: int| 0 <= i < s.len() && s[i] as int == q)
}

/// The position, `up` layers above the leaves, of the node above leaf `leaf`.
pub open spec fn ancestor(leaf: int, width: nat, up: nat) -> int {
    leaf / pow(width as int, up)
}

/// The positions, `up` layers above the leaves, of the nodes that lie above
/// one of `indices`. With `up == 0` these are the indices themselves.
pub open spec fn touched(indices: Seq<usize>, width: nat, up: nat) -> Set<int> {
    Set::new(
        |q: int|
            exists|i: int|
                0 <= i < indices.len() && #[trigger] ancestor(indices[i] as int, width, up) == q,
    )
}

/// The offsets `j < bound` with `base + j` in `marked`, in ascending order.
pub open spec fn offsets_in(marked: Set<int>, base: int, bound: nat) -> Seq<usize>
    decreases bound,
{
    if bound == 0 {
        Seq::empty()
    } else {
        let rest = offsets_in(marked, base, (bound - 1) as nat);
        if marked.contains(base + bound - 1) {
            rest.push((bound - 1) as usize)
        } else {
            rest
        }
    }
}

/// The child positions to open at node `node` of layer `layer`: those whose
/// child lies above a requested leaf, in ascending order.
pub open spec fn node_plan(
    indices: Seq<usize>,
    width: nat,
    depth: nat,
    layer: nat,
    node: int,
) -> Seq<usize> {
    offsets_in(touched(indices, width, (depth - 1 - layer) as nat), node * width, width)
}

/// The plan of one layer: one list of child positions for each of its
/// `width^layer` nodes.
pub open spec fn layer_plan(indices: Seq<usize>, width: nat, depth: nat, layer: nat) -> Seq<
    Seq<usize>,
> {
    Seq::new(
        pow(width as int, layer) as nat,
        |p: int| node_plan(indices, width, depth, layer, p),
    )
}

/// The whole plan, root layer first. A tree of depth 0 is a single node,
/// whose list holds the requested indices themselves, ascending and without
/// repeats.
pub open spec fn index_plan(indices: Seq<usize>, width: nat, depth: nat) -> Seq<Seq<Seq<usize>>> {
    if depth == 0 {
        seq![seq![offsets_in(positions_of(indices), 0, (usize::MAX + 1) as nat)]]
    } else {
        Seq::new(depth, |k: int| layer_plan(indices, width, depth, k as nat))
    }
}

/// What `offsets_in` holds: it is ascending without repeats, and an offset
/// occurs in it exactly when it is below the bound and marked.
pub proof fn lemma_offsets_in(marked: Set<int>, base: int, bound: nat)
    requires
        bound <= usize::MAX + 1,
    ensures
        strictly_increasing(offsets_in(marked, base, bound)),
        offsets_in(marked, base, bound).len() <= bound,
        forall|i: int|
            0 <= i < offsets_in(marked, base, bound).len() ==> {
                &&& (#[trigger] offsets_in(marked, base, bound)[i]) < bound
                &&& marked.contains(base + offsets_in(marked, base, bound)[i])
            },
        forall|q: int|
            base <= q < base + bound && #[trigger] marked.contains(q) ==> offsets_in(
                marked,
                base,
                bound,
            ).contains((q - base) as usize),
    decreases bound,
{
    if bound > 0 {
        let rest = offsets_in(marked, base, (bound - 1) as nat);
        lemma_offsets_in(marked, base, (bound - 1) as nat);
        let all = offsets_in(marked, base, bound);
        if marked.contains(base + bound - 1) {
            assert(all == rest.push((bound - 1) as usize));
            assert(all[rest.len() as int] == (bound - 1) as usize);
            assert forall|q: int|
                base <= q < base + bound && #[trigger] marked.contains(q) implies all.contains(
                (q - base) as usize,
            ) by {
                let j = q - base;
                if j < bound - 1 {
                    assert(rest.contains(j as usize));
                    let i = choose|i: int| 0 <= i < rest.len() && rest[i] == j as usize;
                    assert(all[i] == j as usize);
                } else {
                    assert(all[rest.len() as int] == j as usize);
                }
            }
        } else {
            assert(all == rest);
            assert forall|q: int|
                base <= q < base + bound && #[trigger] marked.contains(q) implies all.contains(
                (q - base) as usize,
            ) by {
                assert(rest.contains((q - base) as usize));
            }
        }
    }
}

/// An ascending list without repeats is determined by its members: it is
/// `offsets_in` of any set that agrees with it below the bound.
pub proof fn lemma_ascending_is_offsets_in(s: Seq<usize>, marked: Set<int>, base: int, bound: nat)
    requires
        bound <= usize::MAX + 1,
        strictly_increasing(s),
        forall|i: int| 0 <= i < s.len() ==> (#[trigger] s[i]) < bound && marked.contains(base + s[i]),
        forall|q: int|
            base <= q < base + bound && #[trigger] marked.contains(q) ==> s.contains(
                (q - base) as usize,
            ),
    ensures
        s == offsets_in(marked, base, bound),
    decreases bound,
{
    if bound == 0 {
        assert(s.len() == 0) by {
            if s.len() > 0 {
                assert(s[0] < bound);
            }
        }
        assert(s =~= Seq::empty());
    } else {
        let top = (bound - 1) as usize;
        if marked.contains(base + bound - 1) {
            assert(s.contains(top));
            let at = choose|i: int| 0 <= i < s.len() && s[i] == top;
            assert(at == s.len() - 1) by {
                if at < s.len() - 1 {
                    assert(s[at] < s[s.len() - 1]);
                    assert(s[s.len() - 1] < bound);
                }
            }
            let front = s.drop_last();
            assert forall|q: int|
                base <= q < base + bound - 1 && #[trigger] marked.contains(q) implies front.contains(
                (q - base) as usize,
            ) by {
                let j = q - base;
                assert(s.contains(j as usize));
                let i = choose|i: int| 0 <= i < s.len() && s[i] == j as usize;
                assert(i != at);
                assert(front[i] == j as usize);
            }
            assert forall|i: int| 0 <= i < front.len() implies (#[trigger] front[i]) < bound - 1
                && marked.contains(base + front[i]) by {
                assert(front[i] == s[i]);
                assert(s[i] < s[at]);
            }
            lemma_ascending_is_offsets_in(front, marked, base, (bound - 1) as nat);
            assert(s =~= front.push(top));
        } else {
            assert forall|i: int| 0 <= i < s.len() implies (#[trigger] s[i]) < bound - 1
                && marked.contains(base + s[i]) by {
                assert(s[i] < bound && marked.contains(base + s[i]));
            }
            lemma_ascending_is_offsets_in(s, marked, base, (bound - 1) as nat);
        }
    }
}

/// One more factor: `b^(e+1) = b * b^e`.
pub proof fn lemma_pow_step(b: int, e: nat)
    ensures
        pow(b, e + 1) == b * pow(b, e),
{
    reveal(pow);
}

/// `base^exp`, or `None` where that does not fit in a `usize`.
pub fn checked_pow(base: usize, exp: usize) -> (r: Option<usize>)
    ensures
        match r {
            Some(v) => v == pow(base as int, exp as nat),
            None => pow(base as int, exp as nat) > usize::MAX,
        },
{
    if exp == 0 {
        proof {
            lemma_pow0(base as int);
        }
        return Some(1);
    }
    if base <= 1 {
        proof {
            if base == 0 {
                lemma0_pow(exp as nat);
            } else {
                lemma1_pow(exp as nat);
            }
        }
        return Some(base);
    }
    let mut acc: usize = 1;
    let mut done: usize = 0;
    proof {
        lemma_pow0(base as int);
    }
    while done < exp
        invariant
            2 <= base,
            done <= exp,
            acc == pow(base as int, done as nat),
            acc >= 1,
        decreases exp - done,
    {
        proof {
            lemma_pow_step(base as int, done as nat);
            assert(pow(base as int, (done + 1) as nat) == acc * base) by (nonlinear_arith)
                requires
                    pow(base as int, (done + 1) as nat) == base * pow(base as int, done as nat),
                    acc == pow(base as int, done as nat),
            ;
            assert(acc * base >= 1) by (nonlinear_arith)
                requires
                    base >= 2,
                    acc >= 1,
            ;
        }
        match acc.checked_mul(base) {
            Some(next) => {
                acc = next;
                done = done + 1;
            },
            None => {
                proof {
                    lemma_pow_increases(base as nat, (done + 1) as nat, exp as nat);
                }
                return None;
            },
        }
    }
    Some(acc)
}

/// The values of `index` in ascending order, each once.
///
/// An ascending list stands for the set of the indices: it is the same on
/// every run, which the order of a hash set is not, and the parents of
/// neighbours in it are neighbours, so that a pass over it finds each parent
/// once.
pub fn sorted_unique(index: &Vec<usize>) -> (out: Vec<usize>)
    ensures
        strictly_increasing(out@),
        positions_of(out@) == positions_of(index@),
        out@ == offsets_in(positions_of(index@), 0, (usize::MAX + 1) as nat),
{
    let mut out: Vec<usize> = Vec::new();
    let mut n: usize = 0;
    while n < index.len()
        invariant
            n <= index.len(),
            strictly_increasing(out@),
            forall|i: int|
                0 <= i < out.len() ==> exists|a: int| 0 <= a < n && index[a] == #[trigger] out[i],
            forall|a: int| 0 <= a < n ==> out@.contains(#[trigger] index[a]),
        decreases index.len() - n,
    {
        let x = index[n];
        let mut pos: usize = 0;
        while pos < out.len() && out[pos] < x
            invariant
                pos <= out.len(),
                forall|i: int| 0 <= i < pos ==> out[i] < x,
            decreases out.len() - pos,
        {
            pos = pos + 1;
        }
        let ghost before = out@;
        if pos == out.len() || out[pos] != x {
            out.insert(pos, x);
            proof {
                assert forall|a: int, b: int| 0 <= a < b < out.len() implies out[a] < out[b] by {
                    if b < pos {
                        assert(out[a] == before[a] && out[b] == before[b]);
                    } else if b == pos {
                        assert(out[a] == before[a]);
                    } else if a < pos {
                        assert(out[a] == before[a] && out[b] == before[b - 1]);
                        assert(before[pos as int] <= before[b - 1]) by {
                            if pos < b - 1 {
                                assert(before[pos as int] < before[b - 1]);
                            }
                        }
                    } else if a == pos {
                        assert(out[b] == before[b - 1]);
                        assert(before[pos as int] <= before[b - 1]) by {
                            if pos < b - 1 {
                                assert(before[pos as int] < before[b - 1]);
                            }
                        }
                    } else {
                        assert(out[a] == before[a - 1] && out[b] == before[b - 1]);
                    }
                }
                assert forall|i: int| 0 <= i < out.len() implies exists|a: int|
                    0 <= a < n + 1 && index[a] == #[trigger] out[i] by {
                    if i < pos {
                        assert(out[i] == before[i]);
                    } else if i == pos {
                        assert(index[n as int] == out[i]);
                    } else {
                        assert(out[i] == before[i - 1]);
                    }
                }
                assert forall|a: int| 0 <= a < n + 1 implies out@.contains(#[trigger] index[a]) by {
                    if a < n {
                        assert(before.contains(index[a]));
                        let i = choose|i: int| 0 <= i < before.len() && before[i] == index[a];
                        if i < pos {
                            assert(out[i] == index[a]);
                        } else {
                            assert(out[i + 1] == index[a]);
                        }
                    } else {
                        assert(out[pos as int] == index[a]);
                    }
                }
            }
        } else {
            proof {
                assert(out[pos as int] == index[n as int]);
            }
        }
        n = n + 1;
    }
    proof {
        assert(positions_of(out@) =~= positions_of(index@)) by {
            assert forall|q: int| positions_of(out@).contains(q) implies positions_of(
                index@,
            ).contains(q) by {
                let i = choose|i: int| 0 <= i < out.len() && out[i] as int == q;
                let a = choose|a: int| 0 <= a < n && index[a] == out[i];
                assert(index[a] as int == q);
            }
            assert forall|q: int| positions_of(index@).contains(q) implies positions_of(
                out@,
            ).contains(q) by {
                let a = choose|a: int| 0 <= a < index.len() && index[a] as int == q;
                assert(out@.contains(index[a]));
                let i = choose|i: int| 0 <= i < out.len() && out[i] == index[a];
                assert(out[i] as int == q);
            }
        }
        let marked = positions_of(index@);
        assert forall|i: int| 0 <= i < out.len() implies (#[trigger] out[i]) < usize::MAX + 1
            && marked.contains(0 + out[i]) by {
            assert(positions_of(out@).contains(out[i] as int));
        }
        assert forall|q: int| 0 <= q < 0 + (usize::MAX + 1) && #[trigger] marked.contains(
            q,
        ) implies out@.contains((q - 0) as usize) by {
            assert(positions_of(out@).contains(q));
            let i = choose|i: int| 0 <= i < out.len() && out[i] as int == q;
            assert(out[i] == q as usize);
        }
        lemma_ascending_is_offsets_in(out@, marked, 0, (usize::MAX + 1) as nat);
    }
    out
}

/// The parents of the positions in `marked`.
pub open spec fn parents_of(marked: Set<int>, width: nat) -> Set<int> {
    Set::new(|p: int| exists|q: int| #[trigger] marked.contains(q) && q / (width as int) == p)
}

/// One of the first `upto` positions of `cur` is a child of `parent`.
pub open spec fn child_among(cur: Seq<usize>, width: int, upto: int, parent: int) -> bool {
    exists|a: int| 0 <= a < upto && cur[a] as int / width == parent
}

/// A position inside the block of children of `p` has `p` as its parent.
pub proof fn lemma_div_in_block(x: int, w: int, p: int)
    requires
        w > 0,
        p * w <= x < p * w + w,
    ensures
        x / w == p,
{
    lemma_fundamental_div_mod_converse(x, w, p, x - p * w);
}

/// One layer up, the touched nodes are the parents of the touched nodes.
pub proof fn lemma_touched_parents(indices: Seq<usize>, width: nat, up: nat)
    requires
        width >= 1,
    ensures
        parents_of(touched(indices, width, up), width) == touched(indices, width, up + 1),
{
    let w = width as int;
    lemma_pow_positive(w, up);
    lemma_pow_step(w, up);
    assert forall|x: int| 0 <= x implies ancestor(x, width, up) / w == ancestor(
        x,
        width,
        up + 1,
    ) by {
        lemma_div_denominator(x, pow(w, up), w);
        assert(pow(w, up) * w == w * pow(w, up)) by (nonlinear_arith);
    }
    let lhs = parents_of(touched(indices, width, up), width);
    let rhs = touched(indices, width, up + 1);
    assert forall|p: int| lhs.contains(p) implies rhs.contains(p) by {
        let q = choose|q: int| #[trigger] touched(indices, width, up).contains(q) && q / w == p;
        let i = choose|i: int|
            0 <= i < indices.len() && #[trigger] ancestor(indices[i] as int, width, up) == q;
        assert(ancestor(indices[i] as int, width, up + 1) == p);
    }
    assert forall|p: int| rhs.contains(p) implies lhs.contains(p) by {
        let i = choose|i: int|
            0 <= i < indices.len() && #[trigger] ancestor(indices[i] as int, width, up + 1) == p;
        let q = ancestor(indices[i] as int, width, up);
        assert(touched(indices, width, up).contains(q));
        assert(q / w == p);
    }
    assert(lhs =~= rhs);
}

/// The plan of one layer of `nodes` nodes, from the ascending list `cur` of
/// the touched positions of the layer below it, and the ascending list of
/// the nodes of this layer that are touched.
pub fn plan_layer(cur: &Vec<usize>, width: usize, nodes: usize) -> (res: (Vec<Vec<usize>>, Vec<usize>))
    requires
        width >= 1,
        nodes * width <= usize::MAX,
        strictly_increasing(cur@),
        forall|a: int| 0 <= a < cur.len() ==> cur[a] < nodes * width,
    ensures
        res.0.len() == nodes,
        forall|p: int|
            0 <= p < nodes ==> (#[trigger] res.0[p])@ == offsets_in(
                positions_of(cur@),
                p * width,
                width as nat,
            ),
        strictly_increasing(res.1@),
        forall|t: int| 0 <= t < res.1.len() ==> res.1[t] < nodes,
        positions_of(res.1@) == parents_of(positions_of(cur@), width as nat),
{
    let ghost marked = positions_of(cur@);
    let mut layer: Vec<Vec<usize>> = Vec::new();
    let mut parents: Vec<usize> = Vec::new();
    let mut i: usize = 0;
    let mut p: usize = 0;
    while p < nodes
        invariant
            width >= 1,
            nodes * width <= usize::MAX,
            strictly_increasing(cur@),
            marked == positions_of(cur@),
            p <= nodes,
            i <= cur.len(),
            forall|a: int| 0 <= a < i ==> cur[a] < p * width,
            forall|a: int| i <= a < cur.len() ==> cur[a] >= p * width,
            layer.len() == p,
            forall|pp: int|
                0 <= pp < p ==> (#[trigger] layer[pp])@ == offsets_in(
                    marked,
                    pp * width,
                    width as nat,
                ),
            strictly_increasing(parents@),
            forall|t: int| 0 <= t < parents.len() ==> parents[t] < p,
            forall|t: int|
                0 <= t < parents.len() ==> child_among(cur@, width as int, i as int, #[trigger] parents[t] as int),
            forall|a: int| 0 <= a < i ==> parents@.contains((#[trigger] cur[a] / width) as usize),
        decreases nodes - p,
    {
        proof {
            assert(p * width + width <= nodes * width) by (nonlinear_arith)
                requires
                    p < nodes,
                    width >= 1,
            ;
        }
        let base: usize = p * width;
        let ghost start = i;
        let mut list: Vec<usize> = Vec::new();
        let mut j: usize = 0;
        while j < width
            invariant
                base == p * width,
                base + width <= usize::MAX,
                strictly_increasing(cur@),
                marked == positions_of(cur@),
                j <= width,
                start <= i <= cur.len(),
                forall|a: int| 0 <= a < i ==> cur[a] < base + j,
                forall|a: int| i <= a < cur.len() ==> cur[a] >= base + j,
                forall|a: int| start <= a < i ==> base <= cur[a],
                list@ == offsets_in(marked, base as int, j as nat),
                list.len() == i - start,
            decreases width - j,
        {
            let here: usize = base + j;
            let ghost hit = marked.contains(here as int);
            proof {
                if hit {
                    let a = choose|a: int| 0 <= a < cur.len() && cur[a] as int == here as int;
                    if a > i {
                        assert(cur[i as int] < cur[a]);
                    }
                    assert(a == i);
                }
                if i < cur.len() && cur[i as int] == here {
                    assert(marked.contains(cur[i as int] as int));
                }
                assert(base + (j + 1) - 1 == here);
            }
            if i < cur.len() && cur[i] == here {
                list.push(j);
                proof {
                    assert forall|a: int| i + 1 <= a < cur.len() implies cur[a] >= base + j + 1 by {
                        assert(cur[i as int] < cur[a]);
                    }
                }
                i = i + 1;
            }
            j = j + 1;
        }
        proof {
            assert((p + 1) * width == base + width) by (nonlinear_arith)
                requires
                    base == p * width,
            ;
            assert forall|a: int| start <= a < i implies cur[a] as int / (width as int) == p by {
                lemma_div_in_block(cur[a] as int, width as int, p as int);
            }
        }
        if list.len() > 0 {
            let ghost before = parents@;
            parents.push(p);
            proof {
                assert forall|t: int| 0 <= t < parents.len() implies child_among(
                    cur@,
                    width as int,
                    i as int,
                    #[trigger] parents[t] as int,
                ) by {
                    if t < before.len() {
                        assert(parents[t] == before[t]);
                        assert(child_among(cur@, width as int, start as int, before[t] as int));
                        let a = choose|a: int|
                            0 <= a < start && cur[a] as int / (width as int) == before[t];
                        assert(0 <= a < i && cur[a] as int / (width as int) == parents[t]);
                    } else {
                        assert(cur[start as int] as int / (width as int) == p);
                    }
                }
                assert forall|a: int| 0 <= a < i implies parents@.contains(
                    (#[trigger] cur[a] / width) as usize,
                ) by {
                    if a < start {
                        let v = (cur[a] / width) as usize;
                        assert(before.contains(v));
                        let t = choose|t: int| 0 <= t < before.len() && before[t] == v;
                        assert(parents[t] == v);
                    } else {
                        assert(parents[before.len() as int] == p);
                    }
                }
            }
        } else {
            proof {
                assert forall|t: int| 0 <= t < parents.len() implies child_among(
                    cur@,
                    width as int,
                    i as int,
                    #[trigger] parents[t] as int,
                ) by {
                    assert(child_among(cur@, width as int, start as int, parents[t] as int));
                    let a = choose|a: int|
                        0 <= a < start && cur[a] as int / (width as int) == parents[t];
                    assert(0 <= a < i && cur[a] as int / (width as int) == parents[t]);
                }
            }
        }
        layer.push(list);
        p = p + 1;
    }
    proof {
        let w = width as nat;
        assert(i == cur.len()) by {
            if i < cur.len() {
                assert(cur[i as int] >= p * width);
            }
        }
        assert forall|q: int| positions_of(parents@).contains(q) implies parents_of(
            marked,
            w,
        ).contains(q) by {
            let t = choose|t: int| 0 <= t < parents.len() && parents[t] as int == q;
            assert(child_among(cur@, width as int, i as int, parents[t] as int));
            let a = choose|a: int|
                0 <= a < i && cur[a] as int / (width as int) == parents[t];
            assert(marked.contains(cur[a] as int));
        }
        assert forall|q: int| parents_of(marked, w).contains(q) implies positions_of(
            parents@,
        ).contains(q) by {
            let c = choose|c: int| #[trigger] marked.contains(c) && c / (w as int) == q;
            let a = choose|a: int| 0 <= a < cur.len() && cur[a] as int == c;
            let v = (cur[a] / width) as usize;
            assert(parents@.contains(v));
            let t = choose|t: int| 0 <= t < parents.len() && parents[t] == v;
            assert(parents[t] as int == q);
        }
        assert(positions_of(parents@) =~= parents_of(marked, w));
    }
    (layer, parents)
}

/// The inputs for which a plan is defined: below the root every index names
/// a leaf, and the number of leaves fits in a `usize`.
pub open spec fn plan_inputs_ok(indices: Seq<usize>, width: nat, depth: nat) -> bool {
    depth > 0 ==> {
        &&& width >= 1
        &&& pow(width as int, depth) <= usize::MAX
        &&& forall|i: int| 0 <= i < indices.len() ==> (#[trigger] indices[i]) < pow(width as int, depth)
    }
}

/// The plan for opening the leaves `index` of a tree of the given width and
/// depth: for each layer, root first, and each node of it, the positions of
/// the children to open, ascending. Repeated indices count once, and their
/// order does not matter.
pub fn create_index_for_proof(index: Vec<usize>, width: usize, depth: usize) -> (plan: Vec<
    Vec<Vec<usize>>,
>)
    requires
        plan_inputs_ok(index@, width as nat, depth as nat),
    ensures
        plan.deep_view() == index_plan(index@, width as nat, depth as nat),
{
    let mut cur = sorted_unique(&index);
    let mut plan: Vec<Vec<Vec<usize>>> = Vec::new();
    if depth == 0 {
        let mut root: Vec<Vec<usize>> = Vec::new();
        root.push(cur);
        plan.push(root);
        proof {
            let want = index_plan(index@, width as nat, depth as nat);
            assert(plan.deep_view().len() == 1);
            assert(plan.deep_view()[0] =~= plan[0].deep_view());
            assert(plan[0].deep_view()[0] =~= plan[0][0]@);
            assert(plan.deep_view() =~~= want);
        }
        return plan;
    }
    let ghost w = width as nat;
    let mut size: usize = match checked_pow(width, depth) {
        Some(leaves) => leaves,
        None => vstd::pervasive::unreached(),
    };
    let mut level: usize = depth;
    proof {
        lemma_pow0(w as int);
        assert(positions_of(cur@) =~= touched(index@, w, 0)) by {
            assert forall|q: int| positions_of(index@).contains(q) implies touched(
                index@,
                w,
                0,
            ).contains(q) by {
                let i = choose|i: int| 0 <= i < index.len() && index[i] as int == q;
                assert(ancestor(index[i] as int, w, 0) == q);
            }
            assert forall|q: int| touched(index@, w, 0).contains(q) implies positions_of(
                index@,
            ).contains(q) by {
                let i = choose|i: int|
                    0 <= i < index.len() && #[trigger] ancestor(index[i] as int, w, 0) == q;
                assert(index[i] as int == q);
            }
        }
        assert forall|a: int| 0 <= a < cur.len() implies cur[a] < size by {
            assert(positions_of(cur@).contains(cur[a] as int));
            let i = choose|i: int| 0 <= i < index.len() && index[i] as int == cur[a] as int;
            assert(index[i] < pow(w as int, depth as nat));
        }
    }
    while level > 0
        invariant
            w == width,
            width >= 1,
            level <= depth,
            size == pow(w as int, level as nat),
            strictly_increasing(cur@),
            forall|a: int| 0 <= a < cur.len() ==> cur[a] < size,
            positions_of(cur@) == touched(index@, w, (depth - level) as nat),
            plan.len() == depth - level,
            forall|t: int|
                0 <= t < plan.len() ==> (#[trigger] plan[t]).deep_view() == layer_plan(
                    index@,
                    w,
                    depth as nat,
                    (level + t) as nat,
                ),
        decreases level,
    {
        let nodes: usize = size / width;
        proof {
            lemma_pow_step(w as int, (level - 1) as nat);
            lemma_div_multiples_vanish(pow(w as int, (level - 1) as nat), w as int);
            assert(nodes == pow(w as int, (level - 1) as nat));
            assert(nodes * width == size) by (nonlinear_arith)
                requires
                    size == width * nodes,
            ;
        }
        let (layer, parents) = plan_layer(&cur, width, nodes);
        proof {
            lemma_touched_parents(index@, w, (depth - level) as nat);
            let want = layer_plan(index@, w, depth as nat, (level - 1) as nat);
            assert(layer.deep_view().len() == want.len());
            assert forall|p: int| 0 <= p < nodes implies layer.deep_view()[p] == want[p] by {
                assert(layer.deep_view()[p] =~= layer[p]@);
                assert((depth - 1 - (level - 1)) as nat == (depth - level) as nat);
            }
            assert(layer.deep_view() =~= want);
        }
        let ghost before = plan@;
        plan.insert(0, layer);
        proof {
            assert forall|t: int| 0 <= t < plan.len() implies (#[trigger] plan[t]).deep_view()
                == layer_plan(index@, w, depth as nat, (level - 1 + t) as nat) by {
                if t > 0 {
                    assert(plan[t] == before[t - 1]);
                }
            }
        }
        cur = parents;
        size = nodes;
        level = level - 1;
    }
    proof {
        let want = index_plan(index@, w, depth as nat);
        assert(plan.deep_view().len() == want.len());
        assert forall|k: int| 0 <= k < depth implies plan.deep_view()[k] == want[k] by {
            assert(plan.deep_view()[k] == plan[k].deep_view());
        }
        assert(plan.deep_view() =~= want);
    }
    plan
}

/// The number of nodes of one layer at which the plan opens something.
pub open spec fn opened_in_layer(layer: Seq<Seq<usize>>) -> nat
    decreases layer.len(),
{
    if layer.len() == 0 {
        0
    } else {
        opened_in_layer(layer.drop_last()) + if layer.last().len() > 0 {
            1nat
        } else {
            0nat
        }
    }
}

/// The number of nodes at which the plan opens something: the number of
/// openings that a batch proof for it holds.
pub open spec fn opened_nodes(plan: Seq<Seq<Seq<usize>>>) -> nat
    decreases plan.len(),
{
    if plan.len() == 0 {
        0
    } else {
        opened_nodes(plan.drop_last()) + opened_in_layer(plan.last())
    }
}

/// The number of nodes at which `plan` opens something, or `None` where
/// that number does not fit in a `usize`.
pub fn count_openings(plan: &Vec<Vec<Vec<usize>>>) -> (r: Option<usize>)
    ensures
        match r {
            Some(n) => n == opened_nodes(plan.deep_view()),
            None => opened_nodes(plan.deep_view()) > usize::MAX,
        },
{
    let ghost steps = plan.deep_view();
    let mut total: usize = 0;
    let mut k: usize = 0;
    proof {
        assert(steps.take(0) =~= Seq::empty());
    }
    while k < plan.len()
        invariant
            steps == plan.deep_view(),
            k <= plan.len(),
            total == opened_nodes(steps.take(k as int)),
        decreases plan.len() - k,
    {
        let layer = &plan[k];
        let ghost row = layer.deep_view();
        let ghost above = total;
        let mut p: usize = 0;
        proof {
            assert(row.take(0) =~= Seq::empty());
            assert(steps[k as int] == row);
            lemma_opened_nodes_grows(steps, k as int);
        }
        while p < layer.len()
            invariant
                steps == plan.deep_view(),
                row == layer.deep_view(),
                p <= layer.len(),
                total == above + opened_in_layer(row.take(p as int)),
                above + opened_in_layer(row) <= opened_nodes(steps),
                opened_in_layer(row.take(p as int)) <= opened_in_layer(row),
            decreases layer.len() - p,
        {
            proof {
                assert(row.take(p + 1).drop_last() =~= row.take(p as int));
                assert(row.take(p + 1).last() == row[p as int]);
                assert(row[p as int] =~= layer[p as int]@);
                lemma_opened_in_layer_grows(row, p + 1);
            }
            if layer[p].len() > 0 {
                if total == usize::MAX {
                    return None;
                }
                total = total + 1;
            }
            p = p + 1;
        }
        proof {
            assert(row.take(layer.len() as int) =~= row);
            assert(steps.take(k + 1).drop_last() =~= steps.take(k as int));
            assert(steps.take(k + 1).last() == row);
        }
        k = k + 1;
    }
    proof {
        assert(steps.take(plan.len() as int) =~= steps);
    }
    Some(total)
}

/// The count over a layer is at least the count over its first `n` nodes.
pub proof fn lemma_opened_in_layer_grows(layer: Seq<Seq<usize>>, n: int)
    requires
        0 <= n <= layer.len(),
    ensures
        opened_in_layer(layer.take(n)) <= opened_in_layer(layer),
    decreases layer.len() - n,
{
    if n < layer.len() {
        lemma_opened_in_layer_grows(layer, n + 1);
        assert(layer.take(n + 1).drop_last() =~= layer.take(n));
    } else {
        assert(layer.take(n) =~= layer);
    }
}

/// The count over a plan is at least the count over its first `n` layers
/// and one more layer's first nodes.
pub proof fn lemma_opened_nodes_grows(plan: Seq<Seq<Seq<usize>>>, n: int)
    requires
        0 <= n < plan.len(),
    ensures
        opened_nodes(plan.take(n)) + opened_in_layer(plan[n]) <= opened_nodes(plan),
    decreases plan.len() - n,
{
    assert(plan.take(n + 1).drop_last() =~= plan.take(n));
    assert(plan.take(n + 1).last() == plan[n]);
    if n + 1 < plan.len() {
        lemma_opened_nodes_grows(plan, n + 1);
    } else {
        assert(plan.take(n + 1) =~= plan);
    }
}

/// The sizes a tree can have: `width^depth` leaves, below a root, with at
/// least two children to a node.
pub open spec fn is_tree_size(leaves: nat, width: nat, depth: nat) -> bool {
    width >= 2 && depth >= 1 && pow(width as int, depth) == leaves
}

/// The depth of the tree of the given width that has `leaves` leaves, or
/// `None` where no tree has.
pub fn tree_depth(leaves: usize, width: usize) -> (r: Option<usize>)
    ensures
        match r {
            Some(depth) => {
                &&& is_tree_size(leaves as nat, width as nat, depth as nat)
                &&& forall|d: nat| is_tree_size(leaves as nat, width as nat, d) ==> d == depth
            },
            None => forall|d: nat| !is_tree_size(leaves as nat, width as nat, d),
        },
{
    if width < 2 {
        return None;
    }
    let mut size: usize = width;
    let mut depth: usize = 1;
    proof {
        lemma_pow1(width as int);
    }
    while size < leaves
        invariant
            width >= 2,
            depth >= 1,
            depth < size,
            size == pow(width as int, depth as nat),
            forall|e: nat| 1 <= e < depth ==> pow(width as int, e) < leaves,
        decreases leaves - size,
    {
        proof {
            lemma_pow_step(width as int, depth as nat);
            assert(pow(width as int, (depth + 1) as nat) == size * width) by (nonlinear_arith)
                requires
                    pow(width as int, (depth + 1) as nat) == width * pow(
                        width as int,
                        depth as nat,
                    ),
                    size == pow(width as int, depth as nat),
            ;
            assert(size * width >= size + size) by (nonlinear_arith)
                requires
                    size >= 1,
                    width >= 2,
            ;
        }
        match size.checked_mul(width) {
            Some(next) if next <= leaves => {
                size = next;
                depth = depth + 1;
            },
            _ => {
                proof {
                    assert forall|d: nat| !is_tree_size(leaves as nat, width as nat, d) by {
                        if d > depth {
                            lemma_pow_increases(width as nat, (depth + 1) as nat, d);
                        }
                    }
                }
                return None;
            },
        }
    }
    if size == leaves {
        proof {
            assert forall|d: nat| is_tree_size(leaves as nat, width as nat, d) implies d
                == depth by {
                if d > depth {
                    lemma_pow_strictly_increases(width as nat, depth as nat, d);
                }
            }
        }
        Some(depth)
    } else {
        proof {
            assert forall|d: nat| !is_tree_size(leaves as nat, width as nat, d) by {
                if d >= depth {
                    lemma_pow_increases(width as nat, depth as nat, d);
                }
            }
        }
        None
    }
}

/// The leaves and indices that fit a tree of the given width and depth.
pub open spec fn batch_fits(data_len: nat, indices: Seq<usize>, width: nat, depth: nat) -> bool {
    &&& data_len == pow(width as int, depth)
    &&& forall|i: int| 0 <= i < indices.len() ==> (#[trigger] indices[i]) < data_len
}

/// The leaves at the given indices, in the order of the indices.
pub open spec fn leaves_at<T>(data: Seq<T>, indices: Seq<usize>) -> Seq<T> {
    Seq::new(indices.len(), |i: int| data[indices[i] as int])
}

/// No tree is without leaves: a tree's size is never zero.
pub proof fn lemma_no_tree_without_leaves(width: nat, depth: nat)
    ensures
        !is_tree_size(0, width, depth),
{
    if width >= 2 {
        lemma_pow_positive(width as int, depth);
    }
}

/// The number of leaves and the width determine the depth.
pub proof fn lemma_depth_unique(leaves: nat, width: nat, d1: nat, d2: nat)
    requires
        is_tree_size(leaves, width, d1),
        is_tree_size(leaves, width, d2),
    ensures
        d1 == d2,
{
    if d1 < d2 {
        lemma_pow_strictly_increases(width, d1, d2);
    } else if d2 < d1 {
        lemma_pow_strictly_increases(width, d2, d1);
    }
}

/// The plan depends on the set of the indices alone: neither on their
/// order nor on how often each occurs.
pub proof fn lemma_plan_depends_on_set(first: Seq<usize>, second: Seq<usize>, width: nat, depth: nat)
    requires
        positions_of(first) == positions_of(second),
    ensures
        index_plan(first, width, depth) == index_plan(second, width, depth),
{
    assert forall|up: nat| touched(first, width, up) == touched(second, width, up) by {
        lemma_touched_of_set(first, second, width, up);
        lemma_touched_of_set(second, first, width, up);
        assert(touched(first, width, up) =~= touched(second, width, up));
    }
    if depth > 0 {
        assert forall|k: nat| k < depth implies #[trigger] layer_plan(first, width, depth, k)
            == layer_plan(second, width, depth, k) by {
            assert(touched(first, width, (depth - 1 - k) as nat) == touched(
                second,
                width,
                (depth - 1 - k) as nat,
            ));
            assert(layer_plan(first, width, depth, k) =~= layer_plan(second, width, depth, k));
        }
        assert(index_plan(first, width, depth) =~= index_plan(second, width, depth));
    }
}

/// What lies above one of `first` lies above one of `second`, where every
/// index of `first` is one of `second`.
pub proof fn lemma_touched_of_set(first: Seq<usize>, second: Seq<usize>, width: nat, up: nat)
    requires
        positions_of(first).subset_of(positions_of(second)),
    ensures
        touched(first, width, up).subset_of(touched(second, width, up)),
{
    assert forall|q: int| touched(first, width, up).contains(q) implies touched(
        second,
        width,
        up,
    ).contains(q) by {
        let i = choose|i: int|
            0 <= i < first.len() && #[trigger] ancestor(first[i] as int, width, up) == q;
        assert(positions_of(first).contains(first[i] as int));
        assert(positions_of(second).contains(first[i] as int));
        let j = choose|j: int| 0 <= j < second.len() && second[j] as int == first[i] as int;
        assert(ancestor(second[j] as int, width, up) == q);
    }
}

/// What the plan holds: position `j` is to be opened at node `node` of layer
/// `layer` exactly when the child there lies above a requested leaf.
pub proof fn lemma_plan_entry(
    indices: Seq<usize>,
    width: nat,
    depth: nat,
    layer: nat,
    node: int,
    j: usize,
)
    requires
        layer < depth,
        width <= usize::MAX,
    ensures
        node_plan(indices, width, depth, layer, node).contains(j) <==> j < width && exists|i: int|
            0 <= i < indices.len() && #[trigger] ancestor(
                indices[i] as int,
                width,
                (depth - 1 - layer) as nat,
            ) == node * width + j,
{
    let up = (depth - 1 - layer) as nat;
    let marked = touched(indices, width, up);
    let list = node_plan(indices, width, depth, layer, node);
    lemma_offsets_in(marked, node * width, width);
    if list.contains(j) {
        let at = choose|at: int| 0 <= at < list.len() && list[at] == j;
        assert(marked.contains(node * width + list[at]));
    }
    if j < width && marked.contains(node * width + j) {
        assert(list.contains(((node * width + j) - node * width) as usize));
    }
}

} // verus!
