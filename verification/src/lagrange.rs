//! When the backend can interpolate.
//!
//! The backend interpolates through points `(x_i, y_i)` by adding up, point
//! after point, the polynomials `y_i * prod_{j != i} (x - x_j) / (x_i - x_j)`.
//! Each of them has the full degree, one less than the number of points, and
//! the backend adds to a sum only while the sum has that degree too: it
//! fails where the leading coefficients added so far cancel and another
//! polynomial has yet to be added. This file computes those leading
//! coefficients, so that the backend is asked only where it answers.

use crate::field::{field_add, field_inv, field_mul, field_sub, scalar_modulus, Scalar};
use vstd::arithmetic::div_mod::*;
use vstd::prelude::*;

verus! {

/// No position occurs twice.
pub open spec fn distinct_positions(points: Seq<(usize, nat)>) -> bool {
    forall|i: int, j: int| 0 <= i < j < points.len() ==> points[i].0 != points[j].0
}

/// The leading coefficient of the polynomial that is one at the position of
/// point `i` and zero at the positions of the other points among the first
/// `n`: the product of the inverses of the differences of the positions.
pub open spec fn weight_upto(points: Seq<(usize, nat)>, i: int, n: nat) -> nat
    decreases n,
{
    if n == 0 {
        1
    } else {
        let rest = weight_upto(points, i, (n - 1) as nat);
        if n - 1 == i {
            rest
        } else {
            field_mul(
                rest,
                field_inv(field_sub(points[i].0 as nat, points[n - 1].0 as nat)),
            )
        }
    }
}

/// The leading coefficient of the sum of the polynomials of the first `k`
/// points.
pub open spec fn leading_sum(points: Seq<(usize, nat)>, k: nat) -> nat
    decreases k,
{
    if k == 0 {
        0
    } else {
        field_add(
            leading_sum(points, (k - 1) as nat),
            field_mul(points[k - 1].1, weight_upto(points, k - 1, points.len())),
        )
    }
}

/// One of the first `k` points has a value that is not zero.
pub open spec fn any_nonzero(points: Seq<(usize, nat)>, k: int) -> bool {
    exists|i: int| 0 <= i < k && (#[trigger] points[i]).1 != 0
}

/// Point `i` can be added: its polynomial is zero, or the first that is
/// not, or the sum before it has the full degree.
pub open spec fn can_add(points: Seq<(usize, nat)>, i: int) -> bool {
    points[i].1 != 0 && any_nonzero(points, i) ==> leading_sum(points, i as nat) != 0
}

/// The backend interpolates through the points: each can be added.
pub open spec fn interpolates(points: Seq<(usize, nat)>) -> bool {
    forall|i: int| 0 <= i < points.len() ==> #[trigger] can_add(points, i)
}

/// The polynomial through the points is zero or has the full degree, so
/// that the backend can subtract it from another.
pub open spec fn full_degree(points: Seq<(usize, nat)>) -> bool {
    any_nonzero(points, points.len() as int) ==> leading_sum(points, points.len()) != 0
}

/// The points `(i, values[i])` through which a vector is interpolated.
pub open spec fn indexed(values: Seq<nat>) -> Seq<(usize, nat)> {
    Seq::new(values.len(), |i: int| (i as usize, values[i]))
}

/// The difference of two different positions is not zero in the field.
pub proof fn lemma_positions_differ(a: usize, b: usize)
    requires
        a != b,
    ensures
        field_sub(a as nat, b as nat) != 0,
        field_sub(a as nat, b as nat) < scalar_modulus(),
{
    let r = scalar_modulus() as int;
    if a > b {
        lemma_fundamental_div_mod_converse(a + r - b, r, 1, a - b);
    } else {
        lemma_fundamental_div_mod_converse(a + r - b, r, 0, a + r - b);
    }
}

/// The leading coefficient of the polynomial of point `i`, but for its
/// value.
fn lagrange_weight(points: &Vec<(usize, Scalar)>, i: usize) -> (w: Scalar)
    requires
        i < points.len(),
        distinct_positions(points.deep_view()),
    ensures
        w@ == weight_upto(points.deep_view(), i as int, points.len() as nat),
{
    let ghost view = points.deep_view();
    let here = Scalar::from_u64(points[i].0 as u64);
    let mut w = Scalar::from_u64(1);
    let mut j: usize = 0;
    while j < points.len()
        invariant
            view == points.deep_view(),
            distinct_positions(view),
            i < points.len(),
            here@ == points[i as int].0,
            j <= points.len(),
            w@ == weight_upto(view, i as int, j as nat),
        decreases points.len() - j,
    {
        proof {
            assert(view[i as int] == points[i as int].deep_view());
            assert(view[j as int] == points[j as int].deep_view());
        }
        if j != i {
            let there = Scalar::from_u64(points[j].0 as u64);
            let difference = here.minus(&there);
            proof {
                if i < j {
                    assert(view[i as int].0 != view[j as int].0);
                } else {
                    assert(view[j as int].0 != view[i as int].0);
                }
                lemma_positions_differ(points[i as int].0, points[j as int].0);
            }
            match difference.inverse() {
                Some(factor) => {
                    w = w.times(&factor);
                },
                None => {},
            }
        }
        j = j + 1;
    }
    w
}

/// Whether the backend interpolates through `points`, and if so, whether
/// the polynomial through them is zero or has the full degree.
pub fn check_interpolation(points: &Vec<(usize, Scalar)>) -> (r: (bool, bool))
    requires
        distinct_positions(points.deep_view()),
    ensures
        r.0 == interpolates(points.deep_view()),
        r.0 ==> r.1 == full_degree(points.deep_view()),
{
    let ghost view = points.deep_view();
    let mut sum = Scalar::from_u64(0);
    let mut seen = false;
    let mut i: usize = 0;
    while i < points.len()
        invariant
            view == points.deep_view(),
            distinct_positions(view),
            i <= points.len(),
            sum@ == leading_sum(view, i as nat),
            sum@ < scalar_modulus(),
            seen == any_nonzero(view, i as int),
            forall|a: int| 0 <= a < i ==> #[trigger] can_add(view, a),
        decreases points.len() - i,
    {
        proof {
            assert(view[i as int] == points[i as int].deep_view());
        }
        let value = points[i].1;
        let ghost before = sum@;
        if !value.is_zero() {
            if seen && sum.is_zero() {
                proof {
                    assert(!can_add(view, i as int));
                }
                return (false, false);
            }
            let w = lagrange_weight(points, i);
            sum = sum.plus(&value.times(&w));
            proof {
                lemma_mod_bound(
                    (before + field_mul(value@, w@)) as int,
                    scalar_modulus() as int,
                );
                assert(any_nonzero(view, i + 1)) by {
                    assert(view[i as int].1 != 0);
                }
            }
            seen = true;
        } else {
            proof {
                assert(field_mul(0, weight_upto(view, i as int, view.len())) == 0) by {
                    assert(0 * weight_upto(view, i as int, view.len()) == 0);
                    lemma_small_mod(0, scalar_modulus());
                }
                lemma_small_mod(before, scalar_modulus());
                assert(any_nonzero(view, i + 1) == any_nonzero(view, i as int)) by {
                    if any_nonzero(view, i + 1) {
                        let a = choose|a: int| 0 <= a < i + 1 && (#[trigger] view[a]).1 != 0;
                        assert(a < i);
                    }
                }
            }
        }
        i = i + 1;
    }
    (true, !seen || !sum.is_zero())
}

/// Whether the backend interpolates through the points `(i, values[i])`.
pub fn check_vector(values: &Vec<Scalar>) -> (ok: bool)
    ensures
        ok == interpolates(indexed(values.deep_view())),
{
    let mut points: Vec<(usize, Scalar)> = Vec::new();
    let mut i: usize = 0;
    while i < values.len()
        invariant
            i <= values.len(),
            points.len() == i,
            forall|a: int| 0 <= a < i ==> (#[trigger] points[a]).deep_view() == (a as usize, values[a]@),
        decreases values.len() - i,
    {
        points.push((i, values[i]));
        i = i + 1;
    }
    proof {
        assert(points.deep_view() =~= indexed(values.deep_view()));
    }
    check_interpolation(&points).0
}

} // verus!
