//! Node and edge types of the PACE dominating-set instances.
use vstd::prelude::*;

verus! {

/// A vertex identifier, zero-based inside the library.
pub type Node = u32;

/// Number of nodes of an instance.
pub type NumNodes = u32;

/// Number of edges of an instance.
pub type NumEdges = u64;

/// An undirected edge between two vertices.
#[derive(Debug, Clone, Copy, PartialEq, Eq, PartialOrd, Ord, Hash, Structural)]
pub struct Edge(pub Node, pub Node);

impl Edge {
    pub fn new(u: Node, v: Node) -> (e: Self)
        ensures
            e == Edge(u, v),
    {
        Edge(u, v)
    }

    /// The same edge with its smaller endpoint first.
    pub fn normalized(&self) -> (e: Self)
        ensures
            e == norm_edge(*self),
    {
        if self.0 < self.1 {
            *self
        } else {
            Edge(self.1, self.0)
        }
    }

    pub fn max_node(&self) -> (r: Node)
        ensures
            r == max_node_spec(*self),
    {
        if self.0 >= self.1 {
            self.0
        } else {
            self.1
        }
    }

    pub fn min_node(&self) -> (r: Node)
        ensures
            r == min_node_spec(*self),
    {
        if self.0 <= self.1 {
            self.0
        } else {
            self.1
        }
    }
}

/// The edge with its endpoints ordered: smaller first.
pub open spec fn norm_edge(e: Edge) -> Edge {
    if e.0 <= e.1 {
        e
    } else {
        Edge(e.1, e.0)
    }
}

pub open spec fn max_node_spec(e: Edge) -> Node {
    if e.0 >= e.1 {
        e.0
    } else {
        e.1
    }
}

pub open spec fn min_node_spec(e: Edge) -> Node {
    if e.0 <= e.1 {
        e.0
    } else {
        e.1
    }
}

/// Lexicographic order on edges, used for the canonical edge list.
pub open spec fn edge_le(a: Edge, b: Edge) -> bool {
    a.0 < b.0 || (a.0 == b.0 && a.1 <= b.1)
}

/// Strict lexicographic order on edges.
pub open spec fn edge_lt(a: Edge, b: Edge) -> bool {
    a.0 < b.0 || (a.0 == b.0 && a.1 < b.1)
}

/// Strictly increasing, hence sorted and duplicate-free.
pub open spec fn strictly_sorted(es: Seq<Edge>) -> bool {
    forall|i: int, j: int| 0 <= i < j < es.len() ==> edge_lt(#[trigger] es[i], #[trigger] es[j])
}

/// The lexicographic order as a first-class relation, shared by every
/// sorting contract so that its uses are syntactically one function.
pub open spec fn edge_leq() -> spec_fn(Edge, Edge) -> bool {
    |a: Edge, b: Edge| edge_le(a, b)
}

/// `edge_le` is a total ordering, as the sorting lemmas require.
pub proof fn lemma_edge_le_total()
    ensures
        vstd::relations::total_ordering(edge_leq()),
{
    let leq = edge_leq();
    assert forall|a: Edge, b: Edge, c: Edge| #[trigger] leq(a, b) && #[trigger] leq(b, c) implies leq(
        a,
        c,
    ) by {
        assert(edge_le(a, b) && edge_le(b, c));
    }
    assert forall|a: Edge, b: Edge| #[trigger] leq(a, b) && #[trigger] leq(b, a) implies a == b by {
        assert(edge_le(a, b) && edge_le(b, a));
    }
    assert forall|a: Edge, b: Edge| #[trigger] leq(a, b) || #[trigger] leq(b, a) by {
        assert(edge_le(a, b) || edge_le(b, a));
    }
}

/// Two strictly sorted edge sequences with the same element set are equal.
pub proof fn lemma_strictly_sorted_unique(x: Seq<Edge>, y: Seq<Edge>)
    requires
        strictly_sorted(x),
        strictly_sorted(y),
        x.to_set() == y.to_set(),
    ensures
        x == y,
    decreases x.len(),
{
    if x.len() == 0 {
        if y.len() > 0 {
            assert(y.to_set().contains(y[0]));
            assert(x.to_set().contains(y[0]));
        }
        assert(x =~= y);
    } else if y.len() == 0 {
        assert(x.to_set().contains(x[0]));
        assert(y.to_set().contains(x[0]));
    } else {
        assert(x.to_set().contains(x[0]));
        assert(y.to_set().contains(y[0]));
        assert(x.contains(y[0]));
        assert(y.contains(x[0]));
        let i = choose|i: int| 0 <= i < x.len() && x[i] == y[0];
        let j = choose|j: int| 0 <= j < y.len() && y[j] == x[0];
        assert(!edge_lt(x[0], x[0]));
        if i > 0 {
            assert(edge_lt(x[0], x[i]));
        }
        if j > 0 {
            assert(edge_lt(y[0], y[j]));
        }
        assert(x[0] == y[0]);
        let xr = x.drop_first();
        let yr = y.drop_first();
        assert forall|e: Edge| xr.to_set().contains(e) implies yr.to_set().contains(e) by {
            let k = choose|k: int| 0 <= k < xr.len() && xr[k] == e;
            assert(x[k + 1] == e);
            assert(edge_lt(x[0], e));
            assert(x.to_set().contains(e)) by {
                assert(x[k + 1] == e);
            }
            assert(y.contains(e));
            let l = choose|l: int| 0 <= l < y.len() && y[l] == e;
            assert(l != 0);
            assert(yr[l - 1] == e);
        }
        assert forall|e: Edge| yr.to_set().contains(e) implies xr.to_set().contains(e) by {
            let k = choose|k: int| 0 <= k < yr.len() && yr[k] == e;
            assert(y[k + 1] == e);
            assert(edge_lt(y[0], e));
            assert(y.to_set().contains(e)) by {
                assert(y[k + 1] == e);
            }
            assert(x.contains(e));
            let l = choose|l: int| 0 <= l < x.len() && x[l] == e;
            assert(l != 0);
            assert(xr[l - 1] == e);
        }
        assert(xr.to_set() =~= yr.to_set());
        assert(strictly_sorted(xr)) by {
            assert forall|p: int, q: int| 0 <= p < q < xr.len() implies edge_lt(
                #[trigger] xr[p],
                #[trigger] xr[q],
            ) by {
                assert(x[p + 1] == xr[p] && x[q + 1] == xr[q]);
            }
        }
        assert(strictly_sorted(yr)) by {
            assert forall|p: int, q: int| 0 <= p < q < yr.len() implies edge_lt(
                #[trigger] yr[p],
                #[trigger] yr[q],
            ) by {
                assert(y[p + 1] == yr[p] && y[q + 1] == yr[q]);
            }
        }
        lemma_strictly_sorted_unique(xr, yr);
        assert(x =~= y) by {
            assert forall|k: int| 0 <= k < x.len() implies x[k] == y[k] by {
                if k > 0 {
                    assert(xr[k - 1] == yr[k - 1]);
                }
            }
        }
    }
}

} // verus!
