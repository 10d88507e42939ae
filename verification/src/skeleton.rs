//! The vertices and edges of the polytope, derived from the list of flags.
//!
//! Each flag yields one point. Flags whose points coincide within tolerance
//! share a polytope vertex, and two vertices are joined by an edge when
//! adjacent flags yield them. The caller computes the points and finds out
//! which flags are adjacent; this module keeps the books: which flag has
//! which vertex, and which pairs of vertices are already joined.

use vstd::prelude::*;
use vstd::seq_lib::lemma_seq_contains_after_push;
use crate::text::rows;

verus! {

/// The mathematical content of a vertex table.
pub struct Assignment {
    /// For each flag that has been entered, the index of its vertex.
    pub vertex_of: Seq<nat>,
    /// For each vertex, the flag that first yielded it.
    pub flag_of: Seq<nat>,
}

/// The table before any flag has been entered.
pub open spec fn no_flags() -> Assignment {
    Assignment { vertex_of: Seq::empty(), flag_of: Seq::empty() }
}

/// A table that entering flags can lead to: every flag has a vertex that
/// exists, every vertex belongs to the flag that first yielded it and to no
/// earlier one, and vertices are numbered in the order in which they first
/// appeared.
pub open spec fn consistent(a: Assignment) -> bool {
    &&& forall|s: int| 0 <= s < a.vertex_of.len() ==> #[trigger] a.vertex_of[s] < a.flag_of.len()
    &&& forall|v: int|
        0 <= v < a.flag_of.len() ==> #[trigger] a.flag_of[v] < a.vertex_of.len()
            && a.vertex_of[a.flag_of[v] as int] == v
    &&& forall|u: int, v: int|
        0 <= u < v < a.flag_of.len() ==> #[trigger] a.flag_of[u] < #[trigger] a.flag_of[v]
    &&& forall|s: int|
        0 <= s < a.vertex_of.len() ==> a.flag_of[#[trigger] a.vertex_of[s] as int] <= s
}

/// The table after one more flag has been entered. `hit` is the first vertex
/// of the table whose point lies within tolerance of the flag's point; with no
/// such vertex the flag's point becomes the next vertex.
pub open spec fn entered(a: Assignment, hit: Option<nat>) -> Assignment {
    match hit {
        Some(v) => Assignment { vertex_of: a.vertex_of.push(v), flag_of: a.flag_of },
        None => Assignment {
            vertex_of: a.vertex_of.push(a.flag_of.len()),
            flag_of: a.flag_of.push(a.vertex_of.len()),
        },
    }
}

/// The table after a series of flags has been entered.
pub open spec fn entered_all(hits: Seq<Option<nat>>) -> Assignment
    decreases hits.len(),
{
    if hits.len() == 0 {
        no_flags()
    } else {
        entered(entered_all(hits.drop_last()), hits.last())
    }
}

/// Every hit of the series names a vertex that existed when it was reported.
pub open spec fn hits_in_range(hits: Seq<Option<nat>>) -> bool {
    forall|k: int|
        0 <= k < hits.len() ==> match #[trigger] hits[k] {
            Some(v) => v < entered_all(hits.take(k)).flag_of.len(),
            None => true,
        }
}

/// Which flag has which polytope vertex.
pub struct VertexTable {
    vertex_of: Vec<usize>,
    flag_of: Vec<usize>,
}

impl View for VertexTable {
    type V = Assignment;

    closed spec fn view(&self) -> Assignment {
        Assignment {
            vertex_of: self.vertex_of@.map_values(|v: usize| v as nat),
            flag_of: self.flag_of@.map_values(|s: usize| s as nat),
        }
    }
}

impl VertexTable {
    /// The invariant of the table.
    pub open spec fn wf(&self) -> bool {
        consistent(self@)
    }

    /// A table without flags.
    pub fn new() -> (t: VertexTable)
        ensures
            t@ == no_flags(),
            t.wf(),
    {
        let t = VertexTable { vertex_of: Vec::new(), flag_of: Vec::new() };
        assert(t@.vertex_of =~= no_flags().vertex_of);
        assert(t@.flag_of =~= no_flags().flag_of);
        t
    }

    /// Number of flags entered.
    pub fn flag_count(&self) -> (n: usize)
        ensures
            n == self@.vertex_of.len(),
    {
        self.vertex_of.len()
    }

    /// Number of vertices.
    pub fn vertex_count(&self) -> (n: usize)
        ensures
            n == self@.flag_of.len(),
    {
        self.flag_of.len()
    }

    /// The vertex of a flag.
    pub fn vertex_of(&self, flag: usize) -> (v: usize)
        requires
            flag < self@.vertex_of.len(),
        ensures
            v == self@.vertex_of[flag as int],
    {
        self.vertex_of[flag]
    }

    /// The flag that first yielded a vertex: the one whose point is the
    /// vertex's position.
    pub fn flag_of(&self, vertex: usize) -> (s: usize)
        requires
            vertex < self@.flag_of.len(),
        ensures
            s == self@.flag_of[vertex as int],
    {
        self.flag_of[vertex]
    }

    /// The vertex of every flag, in the order in which the flags were entered.
    pub fn flag_vertices(&self) -> (list: &Vec<usize>)
        ensures
            list@.map_values(|v: usize| v as nat) == self@.vertex_of,
    {
        &self.vertex_of
    }

    /// Enters the next flag and returns its vertex. `hit` is the first vertex
    /// whose point lies within tolerance of the flag's point, if there is one.
    pub fn enter(&mut self, hit: Option<usize>) -> (v: usize)
        requires
            old(self).wf(),
            match hit {
                Some(h) => h < old(self)@.flag_of.len(),
                None => true,
            },
        ensures
            final(self)@ == entered(
                old(self)@,
                match hit {
                    Some(h) => Some(h as nat),
                    None => None,
                },
            ),
            final(self).wf(),
            v == final(self)@.vertex_of.last(),
            hit is Some ==> v == hit->0,
            hit is None ==> v == old(self)@.flag_of.len(),
    {
        let ghost before = self@;
        let ghost model: Option<nat> = match hit {
            Some(h) => Some(h as nat),
            None => None,
        };
        proof {
            entered_is_consistent(before, model);
        }
        let v: usize = match hit {
            Some(h) => h,
            None => {
                let fresh: usize = self.flag_of.len();
                let flag: usize = self.vertex_of.len();
                self.flag_of.push(flag);
                fresh
            },
        };
        self.vertex_of.push(v);
        assert(self@.vertex_of =~= entered(before, model).vertex_of);
        assert(self@.flag_of =~= entered(before, model).flag_of);
        v
    }
}

/// Entering a flag keeps the table consistent.
pub proof fn entered_is_consistent(a: Assignment, hit: Option<nat>)
    requires
        consistent(a),
        hit is Some ==> hit->0 < a.flag_of.len(),
    ensures
        consistent(entered(a, hit)),
{
    let b = entered(a, hit);
    assert forall|s: int| 0 <= s < b.vertex_of.len() implies #[trigger] b.vertex_of[s]
        < b.flag_of.len() by {
        if s < a.vertex_of.len() {
            assert(b.vertex_of[s] == a.vertex_of[s]);
        }
    }
    assert forall|v: int| 0 <= v < b.flag_of.len() implies #[trigger] b.flag_of[v]
        < b.vertex_of.len() && b.vertex_of[b.flag_of[v] as int] == v by {
        if v < a.flag_of.len() {
            assert(b.flag_of[v] == a.flag_of[v]);
            assert(b.vertex_of[a.flag_of[v] as int] == a.vertex_of[a.flag_of[v] as int]);
        }
    }
    assert forall|u: int, v: int| 0 <= u < v < b.flag_of.len() implies #[trigger] b.flag_of[u]
        < #[trigger] b.flag_of[v] by {
        assert(b.flag_of[u] == a.flag_of[u]);
        if v < a.flag_of.len() {
            assert(b.flag_of[v] == a.flag_of[v]);
        }
    }
    assert forall|s: int| 0 <= s < b.vertex_of.len() implies b.flag_of[#[trigger] b.vertex_of[s] as int]
        <= s by {
        if s < a.vertex_of.len() {
            assert(b.vertex_of[s] == a.vertex_of[s]);
            assert(b.flag_of[a.vertex_of[s] as int] == a.flag_of[a.vertex_of[s] as int]);
        } else {
            match hit {
                Some(h) => {
                    assert(b.flag_of[h as int] == a.flag_of[h as int]);
                },
                None => {},
            }
        }
    }
}

/// In a consistent table a vertex is never numbered higher than the flag
/// that first yielded it.
proof fn vertex_not_above_flag(a: Assignment, v: int)
    requires
        consistent(a),
        0 <= v < a.flag_of.len(),
    ensures
        v <= a.flag_of[v],
    decreases v,
{
    if v > 0 {
        vertex_not_above_flag(a, v - 1);
        assert(a.flag_of[v - 1] < a.flag_of[v]);
    }
}

/// A polytope has at most as many vertices as there are flags.
pub proof fn vertices_at_most_flags(a: Assignment)
    requires
        consistent(a),
    ensures
        a.flag_of.len() <= a.vertex_of.len(),
{
    if a.flag_of.len() > 0 {
        let top = a.flag_of.len() - 1;
        vertex_not_above_flag(a, top);
        assert(a.flag_of[top] < a.vertex_of.len());
    }
}

/// Entering a series of flags, each with a hit that names a vertex of the
/// table as it then was, yields a consistent table with one entry per flag.
pub proof fn entered_all_is_consistent(hits: Seq<Option<nat>>)
    requires
        hits_in_range(hits),
    ensures
        consistent(entered_all(hits)),
        entered_all(hits).vertex_of.len() == hits.len(),
    decreases hits.len(),
{
    if hits.len() > 0 {
        let init = hits.drop_last();
        assert forall|k: int| 0 <= k < init.len() implies match #[trigger] init[k] {
            Some(v) => v < entered_all(init.take(k)).flag_of.len(),
            None => true,
        } by {
            assert(init[k] == hits[k]);
            assert(init.take(k) =~= hits.take(k));
        }
        entered_all_is_consistent(init);
        assert(hits.take(hits.len() - 1) =~= init);
        assert(hits.last() == hits[hits.len() - 1]);
        entered_is_consistent(entered_all(init), hits.last());
    }
}

/// The pair of two vertex indices with the smaller one first.
pub open spec fn edge_between(a: usize, b: usize) -> (usize, usize) {
    if a < b {
        (a, b)
    } else {
        (b, a)
    }
}

/// An edge list after the edge between `a` and `b` has been offered to it:
/// the edge is appended unless it would join a vertex to itself or is in the
/// list already.
pub open spec fn with_edge(edges: Seq<(usize, usize)>, a: usize, b: usize) -> Seq<(usize, usize)> {
    if a == b || edges.contains(edge_between(a, b)) {
        edges
    } else {
        edges.push(edge_between(a, b))
    }
}

/// An edge list as the extraction keeps it: every edge has its smaller vertex
/// first, so none joins a vertex to itself, and no edge occurs twice,
/// whichever way round its ends are read.
pub open spec fn tidy(edges: Seq<(usize, usize)>) -> bool {
    &&& forall|i: int| 0 <= i < edges.len() ==> (#[trigger] edges[i]).0 < edges[i].1
    &&& forall|i: int, j: int|
        0 <= i < j < edges.len() ==> #[trigger] edges[i] != #[trigger] edges[j] && edges[i] != (
            edges[j].1,
            edges[j].0,
        )
}

/// The neighbours of a flag that the extraction looks at: all of them, or the
/// first `cap` where a cap is set.
pub open spec fn examined(neighbours: Seq<usize>, cap: Option<usize>) -> Seq<usize> {
    match cap {
        Some(c) => if c < neighbours.len() {
            neighbours.take(c as int)
        } else {
            neighbours
        },
        None => neighbours,
    }
}

/// An edge list after the edges from the vertex `from` to the vertices of
/// the given flags have been offered to it, in order.
pub open spec fn with_edges_to(
    edges: Seq<(usize, usize)>,
    vertex_of: Seq<usize>,
    from: usize,
    flags: Seq<usize>,
) -> Seq<(usize, usize)>
    decreases flags.len(),
{
    if flags.len() == 0 {
        edges
    } else {
        with_edge(
            with_edges_to(edges, vertex_of, from, flags.drop_last()),
            from,
            vertex_of[flags.last() as int],
        )
    }
}

/// An edge list after the first `upto` flags have been worked through: for
/// each flag in turn, the edges from its vertex to the vertices of its
/// examined neighbours have been offered.
pub open spec fn edge_pass(
    edges: Seq<(usize, usize)>,
    vertex_of: Seq<usize>,
    neighbours: Seq<Seq<usize>>,
    cap: Option<usize>,
    upto: nat,
) -> Seq<(usize, usize)>
    decreases upto,
{
    if upto == 0 {
        edges
    } else {
        with_edges_to(
            edge_pass(edges, vertex_of, neighbours, cap, (upto - 1) as nat),
            vertex_of,
            vertex_of[upto - 1],
            examined(neighbours[upto - 1], cap),
        )
    }
}

/// The neighbour lists fit the flag list: there is one per flag, and each
/// names flags of the list only.
pub open spec fn neighbours_fit(vertex_of: Seq<usize>, neighbours: Seq<Seq<usize>>) -> bool {
    &&& neighbours.len() == vertex_of.len()
    &&& forall|s: int, k: int|
        0 <= s < neighbours.len() && 0 <= k < neighbours[s].len() ==> #[trigger] neighbours[s][k]
            < vertex_of.len()
}

/// Offers the edge between two vertices to an edge list. Returns whether the
/// edge was appended.
pub fn insert_edge(edges: &mut Vec<(usize, usize)>, a: usize, b: usize) -> (added: bool)
    ensures
        final(edges)@ == with_edge(old(edges)@, a, b),
        added == (final(edges)@.len() == old(edges)@.len() + 1),
        tidy(old(edges)@) ==> tidy(final(edges)@),
{
    proof {
        if tidy(edges@) {
            with_edge_stays_tidy(edges@, a, b);
        }
    }
    if a == b {
        return false;
    }
    let edge: (usize, usize) = if a < b {
        (a, b)
    } else {
        (b, a)
    };
    assert(edge == edge_between(a, b));
    let mut i: usize = 0;
    while i < edges.len()
        invariant
            i <= edges.len(),
            a != b,
            edge == edge_between(a, b),
            edges@ == old(edges)@,
            forall|k: int| 0 <= k < i ==> edges@[k] != edge,
        decreases edges.len() - i,
    {
        let e: (usize, usize) = edges[i];
        if e.0 == edge.0 && e.1 == edge.1 {
            assert(edges@[i as int] == edge);
            assert(edges@.contains(edge));
            return false;
        }
        i = i + 1;
    }
    edges.push(edge);
    true
}

/// Offering an edge to a tidy list leaves it tidy.
pub proof fn with_edge_stays_tidy(edges: Seq<(usize, usize)>, a: usize, b: usize)
    requires
        tidy(edges),
    ensures
        tidy(with_edge(edges, a, b)),
{
    let next = with_edge(edges, a, b);
    if next.len() > edges.len() {
        let e = edge_between(a, b);
        assert forall|i: int, j: int| 0 <= i < j < next.len() implies #[trigger] next[i]
            != #[trigger] next[j] && next[i] != (next[j].1, next[j].0) by {
            assert(next[i] == edges[i]);
            if j < edges.len() {
                assert(next[j] == edges[j]);
            } else {
                assert(next[j] == e);
                assert(edges.contains(edges[i]));
            }
        }
    }
}

/// The vertices of flag `s` and of its `k`-th examined neighbour.
pub open spec fn ends(
    vertex_of: Seq<usize>,
    neighbours: Seq<Seq<usize>>,
    cap: Option<usize>,
    s: int,
    k: int,
) -> (usize, usize) {
    (vertex_of[s], vertex_of[examined(neighbours[s], cap)[k] as int])
}

/// The edge `e` joins the distinct vertices of one of the first `upto` flags
/// and of one of its examined neighbours.
pub open spec fn offered(
    vertex_of: Seq<usize>,
    neighbours: Seq<Seq<usize>>,
    cap: Option<usize>,
    upto: nat,
    e: (usize, usize),
) -> bool {
    exists|s: int, k: int|
        0 <= s < upto && 0 <= k < examined(neighbours[s], cap).len() && {
            let p = #[trigger] ends(vertex_of, neighbours, cap, s, k);
            p.0 != p.1 && e == edge_between(p.0, p.1)
        }
}

/// The edges of the polytope: for each flag in turn and each of its examined
/// neighbours in turn, the edge between their vertices, unless the two have
/// the same vertex or the edge was found before. `neighbours` holds for each
/// flag the flags adjacent to it, in the order of the flag list; with a cap
/// only the first `cap` of them are examined.
pub fn extract_edges(
    flag_vertex: &Vec<usize>,
    neighbours: &Vec<Vec<usize>>,
    cap: Option<usize>,
) -> (edges: Vec<(usize, usize)>)
    requires
        neighbours_fit(flag_vertex@, rows(neighbours@)),
    ensures
        edges@ == edge_pass(
            Seq::empty(),
            flag_vertex@,
            rows(neighbours@),
            cap,
            flag_vertex@.len(),
        ),
        tidy(edges@),
        forall|e: (usize, usize)|
            edges@.contains(e) <==> offered(
                flag_vertex@,
                rows(neighbours@),
                cap,
                flag_vertex@.len(),
                e,
            ),
{
    let mut edges: Vec<(usize, usize)> = Vec::new();
    let ghost table = rows(neighbours@);
    let mut s: usize = 0;
    while s < flag_vertex.len()
        invariant
            s <= flag_vertex.len(),
            table == rows(neighbours@),
            neighbours_fit(flag_vertex@, table),
            edges@ == edge_pass(Seq::empty(), flag_vertex@, table, cap, s as nat),
            tidy(edges@),
        decreases flag_vertex.len() - s,
    {
        let list: &Vec<usize> = &neighbours[s];
        assert(list@ == table[s as int]);
        let limit: usize = match cap {
            Some(c) => if c < list.len() {
                c
            } else {
                list.len()
            },
            None => list.len(),
        };
        let ghost seen = examined(list@, cap);
        let ghost base = edges@;
        assert(seen =~= list@.take(limit as int));
        let from: usize = flag_vertex[s];
        let mut k: usize = 0;
        assert(seen.take(0) =~= Seq::<usize>::empty());
        while k < limit
            invariant
                k <= limit,
                limit <= list.len(),
                s < flag_vertex.len(),
                list@ == table[s as int],
                neighbours_fit(flag_vertex@, table),
                seen == list@.take(limit as int),
                from == flag_vertex@[s as int],
                edges@ == with_edges_to(base, flag_vertex@, from, seen.take(k as int)),
                tidy(edges@),
            decreases limit - k,
        {
            let f: usize = list[k];
            assert(f == table[s as int][k as int]);
            assert(seen.take(k + 1).drop_last() =~= seen.take(k as int));
            assert(seen.take(k + 1).last() == f);
            insert_edge(&mut edges, from, flag_vertex[f]);
            k = k + 1;
        }
        assert(seen.take(k as int) =~= seen);
        s = s + 1;
    }
    proof {
        let all = flag_vertex@.len();
        assert forall|e: (usize, usize)|
            edges@.contains(e) <==> offered(flag_vertex@, table, cap, all, e) by {
            edge_pass_contains(Seq::empty(), flag_vertex@, table, cap, all, e);
        }
    }
    edges
}

/// What a list holds after an edge was offered to it: what it held before,
/// and the edge, unless it would join a vertex to itself.
pub proof fn with_edge_contains(edges: Seq<(usize, usize)>, a: usize, b: usize, e: (usize, usize))
    ensures
        with_edge(edges, a, b).contains(e) <==> edges.contains(e) || (a != b && e == edge_between(
            a,
            b,
        )),
{
    lemma_seq_contains_after_push(edges, edge_between(a, b), e);
}

/// What a list holds after the edges from one vertex to the vertices of a
/// series of flags were offered to it.
pub proof fn with_edges_to_contains(
    edges: Seq<(usize, usize)>,
    vertex_of: Seq<usize>,
    from: usize,
    flags: Seq<usize>,
    e: (usize, usize),
)
    ensures
        with_edges_to(edges, vertex_of, from, flags).contains(e) <==> edges.contains(e) || exists|
            k: int,
        |
            0 <= k < flags.len() && from != vertex_of[#[trigger] flags[k] as int] && e
                == edge_between(from, vertex_of[flags[k] as int]),
    decreases flags.len(),
{
    if flags.len() > 0 {
        let init = flags.drop_last();
        let last = flags.last();
        with_edges_to_contains(edges, vertex_of, from, init, e);
        with_edge_contains(
            with_edges_to(edges, vertex_of, from, init),
            from,
            vertex_of[last as int],
            e,
        );
        if with_edges_to(edges, vertex_of, from, flags).contains(e) && !edges.contains(e) {
            if from != vertex_of[last as int] && e == edge_between(from, vertex_of[last as int]) {
                assert(flags[flags.len() - 1] == last);
            } else {
                let k = choose|k: int|
                    0 <= k < init.len() && from != vertex_of[#[trigger] init[k] as int] && e
                        == edge_between(from, vertex_of[init[k] as int]);
                assert(flags[k] == init[k]);
            }
        }
        if exists|k: int|
            0 <= k < flags.len() && from != vertex_of[#[trigger] flags[k] as int] && e
                == edge_between(from, vertex_of[flags[k] as int]) {
            let k = choose|k: int|
                0 <= k < flags.len() && from != vertex_of[#[trigger] flags[k] as int] && e
                    == edge_between(from, vertex_of[flags[k] as int]);
            if k < init.len() {
                assert(init[k] == flags[k]);
            }
        }
    }
}

/// What a list holds after a pass over the first `upto` flags: what it held
/// before, and every edge between the distinct vertices of a flag and of one
/// of its examined neighbours.
pub proof fn edge_pass_contains(
    edges: Seq<(usize, usize)>,
    vertex_of: Seq<usize>,
    neighbours: Seq<Seq<usize>>,
    cap: Option<usize>,
    upto: nat,
    e: (usize, usize),
)
    ensures
        edge_pass(edges, vertex_of, neighbours, cap, upto).contains(e) <==> edges.contains(e)
            || offered(vertex_of, neighbours, cap, upto, e),
    decreases upto,
{
    if upto > 0 {
        let less = (upto - 1) as nat;
        let seen = examined(neighbours[upto - 1], cap);
        let from = vertex_of[upto - 1];
        let earlier = edge_pass(edges, vertex_of, neighbours, cap, less);
        edge_pass_contains(edges, vertex_of, neighbours, cap, less, e);
        with_edges_to_contains(earlier, vertex_of, from, seen, e);
        if offered(vertex_of, neighbours, cap, less, e) {
            let (s, k) = choose|s: int, k: int|
                0 <= s < less && 0 <= k < examined(neighbours[s], cap).len() && {
                    let p = #[trigger] ends(vertex_of, neighbours, cap, s, k);
                    p.0 != p.1 && e == edge_between(p.0, p.1)
                };
            assert(ends(vertex_of, neighbours, cap, s, k).0 != ends(
                vertex_of,
                neighbours,
                cap,
                s,
                k,
            ).1);
        }
        if exists|k: int|
            0 <= k < seen.len() && from != vertex_of[#[trigger] seen[k] as int] && e
                == edge_between(from, vertex_of[seen[k] as int]) {
            let k = choose|k: int|
                0 <= k < seen.len() && from != vertex_of[#[trigger] seen[k] as int] && e
                    == edge_between(from, vertex_of[seen[k] as int]);
            assert(ends(vertex_of, neighbours, cap, upto - 1, k) == (
                from,
                vertex_of[seen[k] as int],
            ));
        }
        if offered(vertex_of, neighbours, cap, upto, e) && !offered(
            vertex_of,
            neighbours,
            cap,
            less,
            e,
        ) {
            let (s, k) = choose|s: int, k: int|
                0 <= s < upto && 0 <= k < examined(neighbours[s], cap).len() && {
                    let p = #[trigger] ends(vertex_of, neighbours, cap, s, k);
                    p.0 != p.1 && e == edge_between(p.0, p.1)
                };
            if s < less {
                assert(ends(vertex_of, neighbours, cap, s, k).0 != ends(
                    vertex_of,
                    neighbours,
                    cap,
                    s,
                    k,
                ).1);
            } else {
                assert(seen[k] == examined(neighbours[s], cap)[k]);
            }
        }
    }
}

/// An edge has no direction, and offering it a second time changes nothing.
pub proof fn with_edge_again(edges: Seq<(usize, usize)>, a: usize, b: usize)
    ensures
        with_edge(edges, b, a) == with_edge(edges, a, b),
        with_edge(with_edge(edges, a, b), a, b) == with_edge(edges, a, b),
{
    with_edge_contains(edges, a, b, edge_between(a, b));
}

/// Offering edges that a list already holds leaves the list as it is.
proof fn with_edges_to_settled(
    edges: Seq<(usize, usize)>,
    vertex_of: Seq<usize>,
    from: usize,
    flags: Seq<usize>,
)
    requires
        forall|k: int|
            0 <= k < flags.len() ==> from == vertex_of[#[trigger] flags[k] as int]
                || edges.contains(edge_between(from, vertex_of[flags[k] as int])),
    ensures
        with_edges_to(edges, vertex_of, from, flags) == edges,
    decreases flags.len(),
{
    if flags.len() > 0 {
        let init = flags.drop_last();
        assert forall|k: int| 0 <= k < init.len() implies from == vertex_of[#[trigger] init[k] as int]
            || edges.contains(edge_between(from, vertex_of[init[k] as int])) by {
            assert(init[k] == flags[k]);
        }
        with_edges_to_settled(edges, vertex_of, from, init);
        assert(flags[flags.len() - 1] == flags.last());
    }
}

/// A pass over flags whose edges a list already holds leaves the list as it
/// is.
proof fn edge_pass_settled(
    edges: Seq<(usize, usize)>,
    vertex_of: Seq<usize>,
    neighbours: Seq<Seq<usize>>,
    cap: Option<usize>,
    upto: nat,
)
    requires
        forall|e: (usize, usize)|
            offered(vertex_of, neighbours, cap, upto, e) ==> edges.contains(e),
    ensures
        edge_pass(edges, vertex_of, neighbours, cap, upto) == edges,
    decreases upto,
{
    if upto > 0 {
        let less = (upto - 1) as nat;
        let seen = examined(neighbours[upto - 1], cap);
        let from = vertex_of[upto - 1];
        assert forall|e: (usize, usize)|
            offered(vertex_of, neighbours, cap, less, e) implies edges.contains(e) by {
            let (s, k) = choose|s: int, k: int|
                0 <= s < less && 0 <= k < examined(neighbours[s], cap).len() && {
                    let p = #[trigger] ends(vertex_of, neighbours, cap, s, k);
                    p.0 != p.1 && e == edge_between(p.0, p.1)
                };
            assert(ends(vertex_of, neighbours, cap, s, k).0 != ends(
                vertex_of,
                neighbours,
                cap,
                s,
                k,
            ).1);
            assert(offered(vertex_of, neighbours, cap, upto, e));
        }
        edge_pass_settled(edges, vertex_of, neighbours, cap, less);
        assert forall|k: int| 0 <= k < seen.len() implies from == vertex_of[#[trigger] seen[k] as int]
            || edges.contains(edge_between(from, vertex_of[seen[k] as int])) by {
            let p = ends(vertex_of, neighbours, cap, upto - 1, k);
            if p.0 != p.1 {
                assert(offered(vertex_of, neighbours, cap, upto, edge_between(p.0, p.1)));
            }
        }
        with_edges_to_settled(edges, vertex_of, from, seen);
    }
}

/// Extraction is idempotent: a second pass over the same flags, started from
/// the edges that the first pass found, finds nothing new and leaves the list
/// as it is, edge for edge.
pub proof fn edge_pass_again(
    edges: Seq<(usize, usize)>,
    vertex_of: Seq<usize>,
    neighbours: Seq<Seq<usize>>,
    cap: Option<usize>,
    upto: nat,
)
    ensures
        edge_pass(
            edge_pass(edges, vertex_of, neighbours, cap, upto),
            vertex_of,
            neighbours,
            cap,
            upto,
        ) == edge_pass(edges, vertex_of, neighbours, cap, upto),
{
    let once = edge_pass(edges, vertex_of, neighbours, cap, upto);
    assert forall|e: (usize, usize)|
        offered(vertex_of, neighbours, cap, upto, e) implies once.contains(e) by {
        edge_pass_contains(edges, vertex_of, neighbours, cap, upto, e);
    }
    edge_pass_settled(once, vertex_of, neighbours, cap, upto);
}

/// A pass keeps a tidy list tidy: whatever the flags and their neighbours,
/// the list it leaves holds no edge from a vertex to itself and no edge
/// twice.
pub proof fn edge_pass_stays_tidy(
    edges: Seq<(usize, usize)>,
    vertex_of: Seq<usize>,
    neighbours: Seq<Seq<usize>>,
    cap: Option<usize>,
    upto: nat,
)
    requires
        tidy(edges),
    ensures
        tidy(edge_pass(edges, vertex_of, neighbours, cap, upto)),
    decreases upto,
{
    if upto > 0 {
        let less = (upto - 1) as nat;
        edge_pass_stays_tidy(edges, vertex_of, neighbours, cap, less);
        with_edges_to_stays_tidy(
            edge_pass(edges, vertex_of, neighbours, cap, less),
            vertex_of,
            vertex_of[upto - 1],
            examined(neighbours[upto - 1], cap),
        );
    }
}

/// Offering a series of edges to a tidy list leaves it tidy.
proof fn with_edges_to_stays_tidy(
    edges: Seq<(usize, usize)>,
    vertex_of: Seq<usize>,
    from: usize,
    flags: Seq<usize>,
)
    requires
        tidy(edges),
    ensures
        tidy(with_edges_to(edges, vertex_of, from, flags)),
    decreases flags.len(),
{
    if flags.len() > 0 {
        with_edges_to_stays_tidy(edges, vertex_of, from, flags.drop_last());
        with_edge_stays_tidy(
            with_edges_to(edges, vertex_of, from, flags.drop_last()),
            from,
            vertex_of[flags.last() as int],
        );
    }
}

/// The skeleton does not depend on the order in which the flags are worked
/// through: two tidy lists that hold exactly the edges offered by the same
/// flags hold the same set of edges, and as many of them.
pub proof fn edge_set_is_determined(
    first: Seq<(usize, usize)>,
    second: Seq<(usize, usize)>,
    vertex_of: Seq<usize>,
    neighbours: Seq<Seq<usize>>,
    cap: Option<usize>,
    upto: nat,
)
    requires
        tidy(first),
        tidy(second),
        forall|e: (usize, usize)|
            first.contains(e) <==> offered(vertex_of, neighbours, cap, upto, e),
        forall|e: (usize, usize)|
            second.contains(e) <==> offered(vertex_of, neighbours, cap, upto, e),
    ensures
        first.to_set() == second.to_set(),
        first.len() == second.len(),
{
    assert(first.to_set() =~= second.to_set());
    first.unique_seq_to_set();
    second.unique_seq_to_set();
}

/// Every edge that a pass finds joins two vertices of the flags it worked
/// through: if those flags have their vertices among the first `count`, so
/// have the edges.
pub proof fn edges_join_known_vertices(
    vertex_of: Seq<usize>,
    neighbours: Seq<Seq<usize>>,
    cap: Option<usize>,
    count: nat,
)
    requires
        neighbours_fit(vertex_of, neighbours),
        forall|s: int| 0 <= s < vertex_of.len() ==> #[trigger] vertex_of[s] < count,
    ensures
        forall|e: (usize, usize)| #[trigger]
            edge_pass(Seq::empty(), vertex_of, neighbours, cap, vertex_of.len()).contains(e)
                ==> e.0 < e.1 < count,
{
    let edges = edge_pass(Seq::empty(), vertex_of, neighbours, cap, vertex_of.len());
    assert forall|e: (usize, usize)| #[trigger] edges.contains(e) implies e.0 < e.1 < count by {
        edge_pass_contains(Seq::empty(), vertex_of, neighbours, cap, vertex_of.len(), e);
        let (s, k) = choose|s: int, k: int|
            0 <= s < vertex_of.len() && 0 <= k < examined(neighbours[s], cap).len() && {
                let p = #[trigger] ends(vertex_of, neighbours, cap, s, k);
                p.0 != p.1 && e == edge_between(p.0, p.1)
            };
        let seen = examined(neighbours[s], cap);
        assert(seen[k] == neighbours[s][k]);
        assert(vertex_of[seen[k] as int] < count);
    }
}

} // verus!
