//! Opening sets: one entry for each node of a tree, which is an opening or
//! nothing, and what is left of them when the empty entries are dropped.

use vstd::prelude::*;

verus! {

/// The openings among the entries, in their order, the empty entries left
/// out.
pub open spec fn compact<T>(entries: Seq<Option<T>>) -> Seq<T>
    decreases entries.len(),
{
    if entries.len() == 0 {
        Seq::empty()
    } else {
        match entries.last() {
            Some(opening) => compact(entries.drop_last()).push(opening),
            None => compact(entries.drop_last()),
        }
    }
}

/// Leaving out the empty entries of two lists and joining them is the same
/// as joining them and leaving out the empty entries.
pub proof fn lemma_compact_concat<T>(a: Seq<Option<T>>, b: Seq<Option<T>>)
    ensures
        compact(a + b) == compact(a) + compact(b),
    decreases b.len(),
{
    if b.len() == 0 {
        assert(a + b =~= a);
        assert(compact(a) + compact(b) =~= compact(a));
    } else {
        assert((a + b).drop_last() =~= a + b.drop_last());
        assert((a + b).last() == b.last());
        lemma_compact_concat(a, b.drop_last());
        match b.last() {
            Some(o) => {
                assert(compact(a + b) =~= compact(a) + compact(b));
            },
            None => {},
        }
    }
}

/// An opening among the entries is among the openings.
pub proof fn lemma_compact_keeps<T>(entries: Seq<Option<T>>, n: int)
    requires
        0 <= n < entries.len(),
        entries[n] is Some,
    ensures
        compact(entries).contains(entries[n]->0),
    decreases entries.len(),
{
    let rest = compact(entries.drop_last());
    if n == entries.len() - 1 {
        let all = rest.push(entries[n]->0);
        assert(all[rest.len() as int] == entries[n]->0);
    } else {
        lemma_compact_keeps(entries.drop_last(), n);
        let at = choose|at: int| 0 <= at < rest.len() && rest[at] == entries[n]->0;
        match entries.last() {
            Some(o) => {
                assert(rest.push(o)[at] == entries[n]->0);
            },
            None => {},
        }
    }
}

/// An opening among the openings is one of the entries.
pub proof fn lemma_compact_from<T>(entries: Seq<Option<T>>, i: int) -> (n: int)
    requires
        0 <= i < compact(entries).len(),
    ensures
        0 <= n < entries.len(),
        entries[n] == Some(compact(entries)[i]),
    decreases entries.len(),
{
    let rest = compact(entries.drop_last());
    if entries.last() is Some && i == rest.len() {
        entries.len() - 1
    } else {
        lemma_compact_from(entries.drop_last(), i)
    }
}

/// Where the first entry is an opening, it is the first opening.
pub proof fn lemma_compact_first<T>(entries: Seq<Option<T>>)
    requires
        entries.len() > 0,
        entries[0] is Some,
    ensures
        compact(entries).len() > 0,
        compact(entries)[0] == entries[0]->0,
    decreases entries.len(),
{
    let rest = compact(entries.drop_last());
    if entries.len() > 1 {
        lemma_compact_first(entries.drop_last());
        assert(entries.drop_last()[0] == entries[0]);
        match entries.last() {
            Some(o) => {
                assert(rest.push(o)[0] == rest[0]);
            },
            None => {},
        }
    } else {
        assert(entries.drop_last().len() == 0);
        assert(rest.len() == 0);
        assert(entries.last() == entries[0]);
        assert(rest.push(entries[0]->0)[0] == entries[0]->0);
    }
}

} // verus!
