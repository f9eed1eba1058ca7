//! Writer for the PACE text format: sorts and deduplicates the edges,
//! shifts the vertex ids down to 1, and emits the header and edge lines.
use vstd::prelude::*;

use vstd::relations::sorted_by;
use vstd::seq_lib::group_to_multiset_ensures;
use vstd::seq_lib::lemma_multiset_commutative;
use vstd::seq_lib::lemma_sorted_unique;

use crate::err::{CoreError, ErrorKind};
use crate::graph::{
    edge_le, edge_leq, edge_lt, lemma_edge_le_total, lemma_strictly_sorted_unique, max_node_spec,
    min_node_spec, strictly_sorted, Edge, NumEdges, NumNodes,
};
use crate::text::{dec_repr, u64_to_dec, NEWLINE, SPACE};

verus! {

/// The smallest vertex id used by any edge of a non-empty sequence.
pub open spec fn node_min(es: Seq<Edge>) -> u32
    recommends
        es.len() > 0,
    decreases es.len(),
{
    if es.len() <= 1 {
        min_node_spec(es[0])
    } else {
        let rest = node_min(es.drop_first());
        if min_node_spec(es[0]) <= rest {
            min_node_spec(es[0])
        } else {
            rest
        }
    }
}

/// The largest vertex id used by any edge of a non-empty sequence.
pub open spec fn node_max(es: Seq<Edge>) -> u32
    recommends
        es.len() > 0,
    decreases es.len(),
{
    if es.len() <= 1 {
        max_node_spec(es[0])
    } else {
        let rest = node_max(es.drop_first());
        if max_node_spec(es[0]) >= rest {
            max_node_spec(es[0])
        } else {
            rest
        }
    }
}

pub proof fn lemma_node_min_props(es: Seq<Edge>)
    requires
        es.len() > 0,
    ensures
        forall|i: int| 0 <= i < es.len() ==> node_min(es) <= min_node_spec(#[trigger] es[i]),
        exists|i: int| 0 <= i < es.len() && node_min(es) == min_node_spec(#[trigger] es[i]),
    decreases es.len(),
{
    assert(node_min(seq![es[0]]) == min_node_spec(es[0]));
    if es.len() == 1 {
        assert(node_min(es) == min_node_spec(es[0]));
    }
    if es.len() > 1 {
        lemma_node_min_props(es.drop_first());
        assert forall|i: int| 0 <= i < es.len() implies node_min(es) <= min_node_spec(
            #[trigger] es[i],
        ) by {
            if i > 0 {
                assert(es.drop_first()[i - 1] == es[i]);
            }
        }
        if node_min(es) == min_node_spec(es[0]) {
            assert(0 <= 0 < es.len() && node_min(es) == min_node_spec(es[0]));
        } else {
            let j = choose|j: int|
                0 <= j < es.drop_first().len() && node_min(es.drop_first()) == min_node_spec(
                    #[trigger] es.drop_first()[j],
                );
            assert(es[j + 1] == es.drop_first()[j]);
            assert(node_min(es) == min_node_spec(es[j + 1]));
        }
    }
}

pub proof fn lemma_node_max_props(es: Seq<Edge>)
    requires
        es.len() > 0,
    ensures
        forall|i: int| 0 <= i < es.len() ==> max_node_spec(#[trigger] es[i]) <= node_max(es),
        exists|i: int| 0 <= i < es.len() && node_max(es) == max_node_spec(#[trigger] es[i]),
    decreases es.len(),
{
    if es.len() == 1 {
        assert(node_max(es) == max_node_spec(es[0]));
    }
    if es.len() > 1 {
        lemma_node_max_props(es.drop_first());
        assert forall|i: int| 0 <= i < es.len() implies max_node_spec(#[trigger] es[i]) <= node_max(
            es,
        ) by {
            if i > 0 {
                assert(es.drop_first()[i - 1] == es[i]);
            }
        }
        if node_max(es) == max_node_spec(es[0]) {
            assert(0 <= 0 < es.len() && node_max(es) == max_node_spec(es[0]));
        } else {
            let j = choose|j: int|
                0 <= j < es.drop_first().len() && node_max(es.drop_first()) == max_node_spec(
                    #[trigger] es.drop_first()[j],
                );
            assert(es[j + 1] == es.drop_first()[j]);
            assert(node_max(es) == max_node_spec(es[j + 1]));
        }
    }
}

/// Sequences with the same edge set have the same vertex extremes.
pub proof fn lemma_node_minmax_by_set(a: Seq<Edge>, b: Seq<Edge>)
    requires
        a.len() > 0,
        b.len() > 0,
        a.to_set() == b.to_set(),
    ensures
        node_min(a) == node_min(b),
        node_max(a) == node_max(b),
{
    lemma_node_min_props(a);
    lemma_node_min_props(b);
    lemma_node_max_props(a);
    lemma_node_max_props(b);
    let ia = choose|i: int| 0 <= i < a.len() && node_min(a) == min_node_spec(#[trigger] a[i]);
    assert(a.to_set().contains(a[ia]));
    assert(b.contains(a[ia]));
    let ja = choose|j: int| 0 <= j < b.len() && b[j] == a[ia];
    assert(node_min(b) <= min_node_spec(b[ja]));
    let ib = choose|i: int| 0 <= i < b.len() && node_min(b) == min_node_spec(#[trigger] b[i]);
    assert(b.to_set().contains(b[ib]));
    assert(a.contains(b[ib]));
    let jb = choose|j: int| 0 <= j < a.len() && a[j] == b[ib];
    assert(node_min(a) <= min_node_spec(a[jb]));
    let ka = choose|i: int| 0 <= i < a.len() && node_max(a) == max_node_spec(#[trigger] a[i]);
    assert(a.to_set().contains(a[ka]));
    assert(b.contains(a[ka]));
    let la = choose|j: int| 0 <= j < b.len() && b[j] == a[ka];
    assert(max_node_spec(b[la]) <= node_max(b));
    let kb = choose|i: int| 0 <= i < b.len() && node_max(b) == max_node_spec(#[trigger] b[i]);
    assert(b.to_set().contains(b[kb]));
    assert(a.contains(b[kb]));
    let lb = choose|j: int| 0 <= j < a.len() && a[j] == b[kb];
    assert(max_node_spec(a[lb]) <= node_max(a));
}

/// Inserting into a sequence adds one occurrence to its multiset.
proof fn lemma_insert_to_multiset(s: Seq<Edge>, i: int, a: Edge)
    requires
        0 <= i <= s.len(),
    ensures
        s.insert(i, a).to_multiset() == s.to_multiset().insert(a),
{
    broadcast use group_to_multiset_ensures;

    let p = s.subrange(0, i);
    let q = s.subrange(i, s.len() as int);
    assert(s =~= p + q);
    lemma_multiset_commutative(p, q);
    lemma_multiset_commutative(p.push(a), q);
    assert(p.push(a).to_multiset() =~= p.to_multiset().insert(a));
    assert(s.insert(i, a).to_multiset() =~= s.to_multiset().insert(a));
}

/// Sorts edges lexicographically; the multiset of edges is unchanged.
pub fn sort_edges(input: Vec<Edge>) -> (r: Vec<Edge>)
    ensures
        sorted_by(r@, edge_leq()),
        r@.to_multiset() == input@.to_multiset(),
{
    broadcast use group_to_multiset_ensures;

    let mut out: Vec<Edge> = Vec::new();
    let mut i: usize = 0;
    proof {
        assert(input@.subrange(0, 0) =~= Seq::<Edge>::empty());
        assert(out@.to_multiset() =~= input@.subrange(0, 0).to_multiset());
    }
    while i < input.len()
        invariant
            0 <= i <= input@.len(),
            sorted_by(out@, edge_leq()),
            out@.to_multiset() == input@.subrange(0, i as int).to_multiset(),
        decreases input@.len() - i,
    {
        let x = input[i];
        let mut j: usize = 0;
        while j < out.len() && (out[j].0 < x.0 || (out[j].0 == x.0 && out[j].1 <= x.1))
            invariant
                0 <= j <= out@.len(),
                forall|k: int| 0 <= k < j ==> edge_le(#[trigger] out@[k], x),
            decreases out@.len() - j,
        {
            j = j + 1;
        }
        let ghost old_out = out@;
        out.insert(j, x);
        proof {
            let leq = edge_leq();
            old_out.insert_ensures(j as int, x);
            assert forall|p: int, q: int| 0 <= p < q < out@.len() implies leq(out@[p], out@[q]) by {
                if q < j {
                    assert(out@[p] == old_out[p] && out@[q] == old_out[q]);
                    assert(edge_leq()(old_out[p], old_out[q]));
                } else if q == j {
                    assert(out@[q] == x && out@[p] == old_out[p]);
                } else if p < j {
                    assert(out@[p] == old_out[p] && out@[q] == old_out[q - 1]);
                    assert(edge_le(old_out[p], x));
                    if j as int != q - 1 {
                        assert(edge_leq()(old_out[j as int], old_out[q - 1]));
                    }
                    assert(!edge_le(old_out[j as int], x));
                } else if p == j {
                    assert(out@[p] == x && out@[q] == old_out[q - 1]);
                    assert(!edge_le(old_out[j as int], x));
                    if j as int != q - 1 {
                        assert(edge_leq()(old_out[j as int], old_out[q - 1]));
                    }
                } else {
                    assert(out@[p] == old_out[p - 1] && out@[q] == old_out[q - 1]);
                    assert(edge_leq()(old_out[p - 1], old_out[q - 1]));
                }
            }
            lemma_insert_to_multiset(old_out, j as int, x);
            let pre = input@.subrange(0, i as int);
            let post = input@.subrange(0, i as int + 1);
            assert(post.drop_last() =~= pre);
            assert(post =~= pre.push(x));
            vstd::seq_lib::to_multiset_build(pre, x);
        }
        i = i + 1;
    }
    proof {
        assert(input@.subrange(0, i as int) =~= input@);
    }
    out
}

/// Removes adjacent duplicates from a sorted edge list: the result is
/// strictly increasing with the same edge set.
pub fn dedup_sorted_edges(input: Vec<Edge>) -> (r: Vec<Edge>)
    requires
        sorted_by(input@, edge_leq()),
    ensures
        strictly_sorted(r@),
        r@.to_set() == input@.to_set(),
        r@.len() <= input@.len(),
{
    let mut out: Vec<Edge> = Vec::new();
    let mut i: usize = 0;
    proof {
        assert(input@.subrange(0, 0) =~= Seq::<Edge>::empty());
        assert(out@.to_set() =~= input@.subrange(0, 0).to_set());
    }
    while i < input.len()
        invariant
            0 <= i <= input@.len(),
            sorted_by(input@, edge_leq()),
            strictly_sorted(out@),
            out@.to_set() == input@.subrange(0, i as int).to_set(),
            out@.len() <= i,
            i > 0 ==> out@.len() > 0 && out@.last() == input@[i as int - 1],
        decreases input@.len() - i,
    {
        let x = input[i];
        let ghost pre = input@.subrange(0, i as int);
        let ghost post = input@.subrange(0, i as int + 1);
        proof {
            assert(post =~= pre.push(x));
            pre.lemma_push_to_set_commute(x);
        }
        if out.len() == 0 {
            let ghost old_out = out@;
            out.push(x);
            proof {
                assert(i == 0);
                assert(out@ =~= post);
            }
        } else {
            let last = out[out.len() - 1];
            if last.0 == x.0 && last.1 == x.1 {
                proof {
                    assert(last == x);
                    assert(out@.to_set().contains(x)) by {
                        assert(out@[out@.len() - 1] == x);
                    }
                    assert(pre.to_set().insert(x) =~= pre.to_set());
                }
            } else {
                let ghost old_out = out@;
                proof {
                    assert(edge_leq()(input@[i as int - 1], input@[i as int]));
                    assert(edge_le(last, x));
                    assert(edge_lt(last, x));
                }
                out.push(x);
                proof {
                    assert forall|p: int, q: int| 0 <= p < q < out@.len() implies edge_lt(
                        #[trigger] out@[p],
                        #[trigger] out@[q],
                    ) by {
                        if q < out@.len() - 1 {
                            assert(out@[p] == old_out[p] && out@[q] == old_out[q]);
                        } else {
                            assert(out@[q] == x);
                            if p < old_out.len() - 1 {
                                assert(out@[p] == old_out[p]);
                                assert(edge_lt(old_out[p], last));
                            } else {
                                assert(out@[p] == last);
                            }
                        }
                    }
                    assert(out@ =~= old_out.push(x));
                    old_out.lemma_push_to_set_commute(x);
                    assert(out@.to_set() =~= post.to_set());
                }
            }
        }
        i = i + 1;
    }
    proof {
        assert(input@.subrange(0, i as int) =~= input@);
    }
    out
}

/// One emitted edge line: both endpoints shifted down by `v0` and up by one.
pub open spec fn edge_line_bytes(e: Edge, v0: u32) -> Seq<u8>
    recommends
        v0 <= e.0,
        v0 <= e.1,
{
    dec_repr((e.0 - v0 + 1) as nat) + seq![SPACE] + dec_repr((e.1 - v0 + 1) as nat) + seq![NEWLINE]
}

/// The emitted edge lines, in sequence order.
pub open spec fn edge_lines_bytes(es: Seq<Edge>, v0: u32) -> Seq<u8>
    decreases es.len(),
{
    if es.len() == 0 {
        seq![]
    } else {
        edge_line_bytes(es[0], v0) + edge_lines_bytes(es.drop_first(), v0)
    }
}

pub proof fn lemma_edge_lines_push(es: Seq<Edge>, e: Edge, v0: u32)
    ensures
        edge_lines_bytes(es.push(e), v0) == edge_lines_bytes(es, v0) + edge_line_bytes(e, v0),
    decreases es.len(),
{
    if es.len() == 0 {
        assert(es.push(e)[0] == e);
        assert(es.push(e).drop_first() =~= Seq::<Edge>::empty());
        assert(edge_lines_bytes(es.push(e).drop_first(), v0) == Seq::<u8>::empty());
        assert(edge_line_bytes(e, v0) + Seq::<u8>::empty() =~= edge_line_bytes(e, v0));
        assert(edge_lines_bytes(es.push(e), v0) =~= edge_line_bytes(e, v0));
        assert(edge_lines_bytes(es, v0) + edge_line_bytes(e, v0) =~= edge_line_bytes(e, v0));
    } else {
        lemma_edge_lines_push(es.drop_first(), e, v0);
        assert(es.push(e).drop_first() =~= es.drop_first().push(e));
        assert(es.push(e)[0] == es[0]);
        assert(edge_line_bytes(es[0], v0) + (edge_lines_bytes(es.drop_first(), v0) + edge_line_bytes(
            e,
            v0,
        )) =~= (edge_line_bytes(es[0], v0) + edge_lines_bytes(es.drop_first(), v0))
            + edge_line_bytes(e, v0));
    }
}

/// The emitted header line `p <id> <n> <m>`.
pub open spec fn header_line_bytes(id: Seq<u8>, n: nat, m: nat) -> Seq<u8> {
    seq![112u8, SPACE] + id + seq![SPACE] + dec_repr(n) + seq![SPACE] + dec_repr(m) + seq![NEWLINE]
}

/// A whole emitted document.
pub open spec fn write_bytes(id: Seq<u8>, es: Seq<Edge>, v0: u32, n: nat, m: nat) -> Seq<u8> {
    header_line_bytes(id, n, m) + edge_lines_bytes(es, v0)
}

/// Emits the document for an already strictly sorted edge list.
fn emit_document(problem_id: &Vec<u8>, edges: &Vec<Edge>, v0: u32, n: u32, m: u64) -> (out: Vec<u8>)
    requires
        forall|i: int|
            0 <= i < edges@.len() ==> v0 <= #[trigger] edges@[i].0 && edges@[i].0 - v0 + 1
                <= u32::MAX,
        forall|i: int|
            0 <= i < edges@.len() ==> v0 <= #[trigger] edges@[i].1 && edges@[i].1 - v0 + 1
                <= u32::MAX,
    ensures
        out@ == write_bytes(problem_id@, edges@, v0, n as nat, m as nat),
{
    let mut out: Vec<u8> = Vec::new();
    out.push(112);
    out.push(SPACE);
    out.extend_from_slice(problem_id.as_slice());
    out.push(SPACE);
    let n_dec = u64_to_dec(n as u64);
    out.extend_from_slice(n_dec.as_slice());
    out.push(SPACE);
    let m_dec = u64_to_dec(m);
    out.extend_from_slice(m_dec.as_slice());
    out.push(NEWLINE);
    proof {
        assert(out@ =~= header_line_bytes(problem_id@, n as nat, m as nat));
        assert(edge_lines_bytes(edges@.subrange(0, 0), v0) =~= Seq::<u8>::empty());
        assert(out@ =~= header_line_bytes(problem_id@, n as nat, m as nat) + edge_lines_bytes(
            edges@.subrange(0, 0),
            v0,
        ));
    }
    let mut i: usize = 0;
    while i < edges.len()
        invariant
            0 <= i <= edges@.len(),
            forall|k: int|
                0 <= k < edges@.len() ==> v0 <= #[trigger] edges@[k].0 && edges@[k].0 - v0 + 1
                    <= u32::MAX,
            forall|k: int|
                0 <= k < edges@.len() ==> v0 <= #[trigger] edges@[k].1 && edges@[k].1 - v0 + 1
                    <= u32::MAX,
            out@ == header_line_bytes(problem_id@, n as nat, m as nat) + edge_lines_bytes(
                edges@.subrange(0, i as int),
                v0,
            ),
        decreases edges@.len() - i,
    {
        let e = edges[i];
        let ghost before = out@;
        let u_dec = u64_to_dec((e.0 - v0 + 1) as u64);
        out.extend_from_slice(u_dec.as_slice());
        out.push(SPACE);
        let v_dec = u64_to_dec((e.1 - v0 + 1) as u64);
        out.extend_from_slice(v_dec.as_slice());
        out.push(NEWLINE);
        proof {
            assert(out@ =~= before + edge_line_bytes(e, v0));
            let pre = edges@.subrange(0, i as int);
            let post = edges@.subrange(0, i as int + 1);
            assert(post =~= pre.push(e));
            lemma_edge_lines_push(pre, e, v0);
            assert(out@ =~= header_line_bytes(problem_id@, n as nat, m as nat) + edge_lines_bytes(
                post,
                v0,
            ));
        }
        i = i + 1;
    }
    proof {
        assert(edges@.subrange(0, i as int) =~= edges@);
    }
    out
}

/// Writes an edge list as a PACE document. The edges are materialized,
/// sorted and deduplicated; the header holds `n = max − min + 1` over the
/// used vertex ids and `m` the number of distinct edges. An empty edge
/// list is refused.
pub fn pace_writer(problem_id: &Vec<u8>, edges: Vec<Edge>) -> (r: Result<
    (NumNodes, NumEdges, Vec<u8>),
    CoreError,
>)
    ensures
        r matches Ok((n, m, out)) ==> exists|ces: Seq<Edge>|
            {
                &&& strictly_sorted(ces)
                &&& ces.to_set() == edges@.to_set()
                &&& ces.len() > 0
                &&& n == node_max(ces) - node_min(ces) + 1
                &&& m == ces.len()
                &&& out@ == write_bytes(problem_id@, ces, node_min(ces), n as nat, m as nat)
            },
        r is Err ==> edges@.len() == 0 || (edges@.len() > 0 && node_max(edges@) - node_min(edges@)
            + 1 > u32::MAX),
        r matches Err(e) ==> e.kind == ErrorKind::BadInput,
        strictly_sorted(edges@) && edges@.len() > 0 && node_max(edges@) - node_min(edges@) + 1
            <= u32::MAX ==> (r matches Ok((n, m, out)) && n == node_max(edges@) - node_min(edges@)
            + 1 && m == edges@.len() && out@ == write_bytes(
            problem_id@,
            edges@,
            node_min(edges@),
            n as nat,
            m as nat,
        )),
{
    broadcast use group_to_multiset_ensures;

    if edges.len() == 0 {
        return Err(CoreError::bad_input("no edges to write"));
    }
    let ghost orig = edges@;
    let sorted = sort_edges(edges);
    proof {
        lemma_edge_le_total();
        assert(sorted@.len() == orig.len()) by {
            assert(sorted@.to_multiset().len() == orig.to_multiset().len());
        }
        assert forall|e: Edge| sorted@.to_set().contains(e) implies orig.to_set().contains(e) by {
            assert(sorted@.contains(e));
            assert(sorted@.to_multiset().count(e) > 0);
            assert(orig.to_multiset().count(e) > 0);
            assert(orig.contains(e));
        }
        assert forall|e: Edge| orig.to_set().contains(e) implies sorted@.to_set().contains(e) by {
            assert(orig.contains(e));
            assert(orig.to_multiset().count(e) > 0);
            assert(sorted@.to_multiset().count(e) > 0);
            assert(sorted@.contains(e));
        }
        assert(sorted@.to_set() =~= orig.to_set());
        if strictly_sorted(orig) {
            lemma_sorted_unique(sorted@, orig, edge_leq());
        }
    }
    let ces = dedup_sorted_edges(sorted);
    proof {
        if strictly_sorted(orig) {
            lemma_strictly_sorted_unique(ces@, orig);
        }
        if ces@.len() == 0 {
            assert(orig.to_set().contains(orig[0]));
            assert(ces@.contains(orig[0]));
        }
        lemma_node_minmax_by_set(ces@, orig);
    }
    let ghost gces = ces@;
    let mut v0: u32 = u32::MAX;
    let mut v1: u32 = 0;
    let mut i: usize = 0;
    proof {
        lemma_node_min_props(gces);
        lemma_node_max_props(gces);
    }
    while i < ces.len()
        invariant
            0 <= i <= gces.len(),
            gces == ces@,
            gces.len() > 0,
            i > 0 ==> v0 == node_min(gces.subrange(0, i as int)),
            i > 0 ==> v1 == node_max(gces.subrange(0, i as int)),
            i == 0 ==> v0 == u32::MAX && v1 == 0,
        decreases gces.len() - i,
    {
        let e = ces[i];
        let emin = if e.0 <= e.1 {
            e.0
        } else {
            e.1
        };
        let emax = if e.0 >= e.1 {
            e.0
        } else {
            e.1
        };
        let ghost pre = gces.subrange(0, i as int);
        let ghost post = gces.subrange(0, i as int + 1);
        if i == 0 {
            v0 = emin;
            v1 = emax;
            proof {
                assert(post.len() == 1 && post[0] == e);
            }
        } else {
            proof {
                lemma_node_minmax_snoc(pre, e);
                assert(post =~= pre.push(e));
            }
            if emin < v0 {
                v0 = emin;
            }
            if emax > v1 {
                v1 = emax;
            }
        }
        i = i + 1;
    }
    proof {
        assert(gces.subrange(0, i as int) =~= gces);
    }
    let span = v1 as u64 - v0 as u64 + 1;
    if span > u32::MAX as u64 {
        return Err(CoreError::bad_input("vertex id range too wide"));
    }
    let n = span as u32;
    let m = ces.len() as u64;
    proof {
        lemma_node_min_props(gces);
        lemma_node_max_props(gces);
        assert forall|k: int| 0 <= k < gces.len() implies v0 <= #[trigger] gces[k].0 && gces[k].0
            - v0 + 1 <= u32::MAX && v0 <= gces[k].1 && gces[k].1 - v0 + 1 <= u32::MAX by {
            assert(node_min(gces) <= min_node_spec(gces[k]));
            assert(max_node_spec(gces[k]) <= node_max(gces));
        }
    }
    let out = emit_document(problem_id, &ces, v0, n, m);
    Ok((n, m, out))
}

/// Extending a non-empty sequence extends its extremes pointwise.
proof fn lemma_node_minmax_snoc(es: Seq<Edge>, e: Edge)
    requires
        es.len() > 0,
    ensures
        node_min(es.push(e)) == if min_node_spec(e) < node_min(es) {
            min_node_spec(e)
        } else {
            node_min(es)
        },
        node_max(es.push(e)) == if max_node_spec(e) > node_max(es) {
            max_node_spec(e)
        } else {
            node_max(es)
        },
    decreases es.len(),
{
    if es.len() == 1 {
        let s = es.push(e);
        assert(s.drop_first() =~= seq![e]);
        assert(s[0] == es[0]);
        assert(s.drop_first()[0] == e);
        assert(node_min(seq![e]) == min_node_spec(e));
        assert(node_max(seq![e]) == max_node_spec(e));
        assert(node_min(es) == min_node_spec(es[0]));
        assert(node_max(es) == max_node_spec(es[0]));
        assert(node_min(s) == if min_node_spec(s[0]) <= node_min(s.drop_first()) {
            min_node_spec(s[0])
        } else {
            node_min(s.drop_first())
        });
        assert(node_max(s) == if max_node_spec(s[0]) >= node_max(s.drop_first()) {
            max_node_spec(s[0])
        } else {
            node_max(s.drop_first())
        });
    } else {
        lemma_node_minmax_snoc(es.drop_first(), e);
        let s = es.push(e);
        assert(s.drop_first() =~= es.drop_first().push(e));
        assert(s[0] == es[0]);
    }
}

} // verus!
