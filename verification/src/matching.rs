//! Telling flags apart by the vertices they share.
//!
//! Two flags are compared vertex by vertex. The caller measures the distances
//! and hands over a table of booleans: entry `(i, j)` says whether vertex `i`
//! of the first flag lies within tolerance of vertex `j` of the second. The
//! number of shared vertices is the number of vertices of the first flag that
//! have such a partner. Flags that share all their vertices are the same
//! domain; flags that share all but one are neighbours.

use vstd::prelude::*;
use crate::text::rows;

verus! {

/// Number of rows of a table that hold a `true`: the number of vertices of
/// the first flag that have a partner in the second.
pub open spec fn shared(table: Seq<Seq<bool>>) -> nat
    decreases table.len(),
{
    if table.len() == 0 {
        0
    } else {
        shared(table.drop_last()) + if table.last().contains(true) {
            1nat
        } else {
            0nat
        }
    }
}

/// Two flags of dimension `dim` that share this many vertices are the same
/// domain.
pub open spec fn same_domain(count: nat, dim: nat) -> bool {
    count == dim
}

/// Two flags of dimension `dim` that share this many vertices are adjacent
/// domains: they differ by a single reflection.
pub open spec fn adjacent_domains(count: nat, dim: nat) -> bool {
    count + 1 == dim
}

/// Whether a vertex has a partner: whether its row of the table holds a
/// `true`.
pub fn has_partner(row: &Vec<bool>) -> (b: bool)
    ensures
        b == row@.contains(true),
{
    let mut j: usize = 0;
    while j < row.len()
        invariant
            j <= row.len(),
            forall|k: int| 0 <= k < j ==> !row@[k],
        decreases row.len() - j,
    {
        if row[j] {
            return true;
        }
        j = j + 1;
    }
    false
}

/// The number of vertices that two flags share, from the table of which
/// vertex lies within tolerance of which.
pub fn shared_vertices(close: &Vec<Vec<bool>>) -> (n: usize)
    ensures
        n == shared(rows(close@)),
        n <= close.len(),
{
    let mut n: usize = 0;
    let mut i: usize = 0;
    assert(rows(close@).take(0) =~= Seq::<Seq<bool>>::empty());
    while i < close.len()
        invariant
            i <= close.len(),
            n <= i,
            n == shared(rows(close@).take(i as int)),
        decreases close.len() - i,
    {
        let ghost table = rows(close@);
        assert(table.take(i + 1).drop_last() =~= table.take(i as int));
        assert(table.take(i + 1).last() == close@[i as int]@);
        if has_partner(&close[i]) {
            n = n + 1;
        }
        i = i + 1;
    }
    assert(rows(close@).take(i as int) =~= rows(close@));
    n
}

/// Whether two flags of dimension `dim` that share `count` vertices are the
/// same domain.
pub fn is_same_domain(count: usize, dim: usize) -> (b: bool)
    ensures
        b == same_domain(count as nat, dim as nat),
{
    count == dim
}

/// Whether two flags of dimension `dim` that share `count` vertices are
/// adjacent domains.
pub fn is_adjacent(count: usize, dim: usize) -> (b: bool)
    ensures
        b == adjacent_domains(count as nat, dim as nat),
{
    dim >= 1 && count == dim - 1
}

/// No more vertices are shared than the first flag has.
pub proof fn shared_is_bounded(table: Seq<Seq<bool>>)
    ensures
        shared(table) <= table.len(),
    decreases table.len(),
{
    if table.len() > 0 {
        shared_is_bounded(table.drop_last());
    }
}

/// A flag shares all its vertices with itself: when every vertex is within
/// tolerance of the vertex of the same position, the count is the number of
/// vertices.
pub proof fn shared_with_itself(table: Seq<Seq<bool>>)
    requires
        forall|i: int| 0 <= i < table.len() ==> i < (#[trigger] table[i]).len() && table[i][i],
    ensures
        shared(table) == table.len(),
        same_domain(shared(table), table.len()),
    decreases table.len(),
{
    if table.len() > 0 {
        let init = table.drop_last();
        assert forall|i: int| 0 <= i < init.len() implies i < (#[trigger] init[i]).len()
            && init[i][i] by {
            assert(init[i] == table[i]);
        }
        shared_with_itself(init);
        let last = table.last();
        assert(last == table[table.len() - 1]);
        assert(last[table.len() - 1]);
    }
}

/// A flag is never adjacent to itself, and no flag is both the same as
/// another and adjacent to it.
pub proof fn same_excludes_adjacent(count: nat, dim: nat)
    ensures
        !(same_domain(count, dim) && adjacent_domains(count, dim)),
{
}

} // verus!
