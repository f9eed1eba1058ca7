//! The canonicalizer: a raw PACE document is parsed, its edges normalized
//! (ordered endpoints, self-loops and duplicates dropped), the used vertex
//! ids densely relabeled, and the result emitted as canonical bytes with a
//! SHA-256 content address.
use vstd::prelude::*;

use sha2::Digest;

use crate::err::{CoreError, ErrorKind};
use crate::graph::{norm_edge, strictly_sorted, Edge, NumEdges, NumNodes};
use crate::instance_reader::{body_lines, header_of, parse_edges, parse_instance, opt_cons, PaceReader};
use crate::instance_writer::{
    dedup_sorted_edges, node_max, node_min, pace_writer, sort_edges, write_bytes,
    lemma_node_min_props, lemma_node_max_props,
};

verus! {

/// The digest that sha2's SHA-256 computes; a function of the bytes alone.
pub uninterp spec fn sha256_of(data: Seq<u8>) -> Seq<u8>;

/// Relies on sha2's `Sha256`: a 32-byte digest computed from the input
/// bytes alone.
#[verifier::external_body]
fn sha256(data: &Vec<u8>) -> (r: Vec<u8>)
    ensures
        r@ == sha256_of(data@),
        r@.len() == 32,
{
    sha2::Sha256::digest(data.as_slice()).to_vec()
}

/// The problem id that canonical documents carry: `ds`.
pub open spec fn problem_id_bytes() -> Seq<u8> {
    seq![100u8, 115u8]
}

/// The set of normalized, non-loop edges of a raw edge sequence.
pub open spec fn edge_set_of(raw: Seq<Edge>) -> Set<Edge> {
    Set::new(
        |x: Edge|
            exists|i: int|
                0 <= i < raw.len() && (#[trigger] raw[i]).0 != raw[i].1 && x == norm_edge(raw[i]),
    )
}

/// The strictly sorted sequence holding exactly the edges of `s`.
/// It exists for every set a run of the canonicalizer produces, and it is
/// unique by `lemma_strictly_sorted_unique`.
pub open spec fn sorted_seq_of(s: Set<Edge>) -> Seq<Edge> {
    choose|ces: Seq<Edge>| strictly_sorted(ces) && ces.to_set() == s
}

/// A strictly sorted witness pins `sorted_seq_of` down.
pub proof fn lemma_sorted_seq_of_witness(ces: Seq<Edge>)
    requires
        strictly_sorted(ces),
    ensures
        sorted_seq_of(ces.to_set()) == ces,
{
    let s = ces.to_set();
    assert(strictly_sorted(ces) && ces.to_set() == s);
    let w = sorted_seq_of(s);
    assert(strictly_sorted(w) && w.to_set() == s);
    crate::graph::lemma_strictly_sorted_unique(w, ces);
}

/// Some vertex of `es` equals `v`.
pub open spec fn seq_uses(es: Seq<Edge>, v: crate::graph::Node) -> bool {
    exists|i: int| 0 <= i < es.len() && ((#[trigger] es[i]).0 == v || es[i].1 == v)
}

/// How many used vertex ids lie below `v`: the dense relabeling map.
pub open spec fn rank_up_to(es: Seq<Edge>, v: int) -> int
    decreases v,
{
    if v <= 0 {
        0
    } else {
        rank_up_to(es, v - 1) + if seq_uses(es, (v - 1) as u32) {
            1int
        } else {
            0int
        }
    }
}

pub proof fn lemma_rank_nondecreasing(es: Seq<Edge>, a: int, b: int)
    requires
        a <= b,
    ensures
        rank_up_to(es, a) <= rank_up_to(es, b),
    decreases b - a,
{
    if a < b {
        lemma_rank_nondecreasing(es, a, b - 1);
    }
}

pub proof fn lemma_rank_le(es: Seq<Edge>, v: int)
    requires
        v >= 0,
    ensures
        rank_up_to(es, v) <= v,
        rank_up_to(es, v) >= 0,
    decreases v,
{
    if v > 0 {
        lemma_rank_le(es, v - 1);
    }
}

/// The relabeling is strictly monotone over the used vertices.
pub proof fn lemma_rank_strict_mono(es: Seq<Edge>, u: crate::graph::Node, v: int)
    requires
        u < v,
        seq_uses(es, u),
    ensures
        rank_up_to(es, u as int) < rank_up_to(es, v),
{
    lemma_rank_nondecreasing(es, u as int + 1, v);
}

/// Below the smallest used vertex the relabeling counts nothing.
pub proof fn lemma_rank_zero_below(es: Seq<Edge>, v: int)
    requires
        0 <= v,
        forall|w: crate::graph::Node| w < v ==> !seq_uses(es, w),
    ensures
        rank_up_to(es, v) == 0,
    decreases v,
{
    if v > 0 {
        lemma_rank_zero_below(es, v - 1);
    }
}

/// An edge relabeled through the dense map of `es`.
pub open spec fn relabel_edge(es: Seq<Edge>, e: Edge) -> Edge {
    Edge(rank_up_to(es, e.0 as int) as u32, rank_up_to(es, e.1 as int) as u32)
}

/// The whole sorted edge list relabeled.
pub open spec fn relabel_all(es: Seq<Edge>) -> Seq<Edge> {
    Seq::new(es.len(), |i: int| relabel_edge(es, es[i]))
}

/// The canonical edge list of a raw edge sequence: normalize, dedupe, sort,
/// then relabel densely.
pub open spec fn canon_edges(raw: Seq<Edge>) -> Seq<Edge> {
    relabel_all(sorted_seq_of(edge_set_of(raw)))
}

/// The node count of the canonical document.
pub open spec fn canon_node_count(raw: Seq<Edge>) -> nat {
    (node_max(canon_edges(raw)) + 1) as nat
}

/// The canonical bytes of a raw edge sequence.
pub open spec fn canon_bytes(raw: Seq<Edge>) -> Seq<u8> {
    write_bytes(
        problem_id_bytes(),
        canon_edges(raw),
        0,
        canon_node_count(raw),
        canon_edges(raw).len(),
    )
}

/// When the canonicalizer accepts a document: it parses, at least one
/// normalized edge remains, and under `check_header` the distinct-edge
/// count matches the header.
pub open spec fn canon_ok(input: Seq<u8>, check_header: bool) -> bool {
    match parse_instance(input) {
        Option::None => false,
        Option::Some((id, n, m, raw)) => {
            &&& edge_set_of(raw) != Set::<Edge>::empty()
            &&& (check_header ==> sorted_seq_of(edge_set_of(raw)).len() == m)
        },
    }
}

/// A canonicalized instance: its size, content address, and bytes.
pub struct CanonicalInstance {
    pub nodes: NumNodes,
    pub edges: NumEdges,
    pub hash: Vec<u8>,
    pub data: Vec<u8>,
}

/// Adding one parsed edge to a raw sequence extends its normalized set.
proof fn lemma_edge_set_push(raw: Seq<Edge>, e: Edge)
    ensures
        e.0 != e.1 ==> edge_set_of(raw.push(e)) == edge_set_of(raw).insert(norm_edge(e)),
        e.0 == e.1 ==> edge_set_of(raw.push(e)) == edge_set_of(raw),
{
    let p = raw.push(e);
    assert forall|x: Edge| edge_set_of(raw).contains(x) implies edge_set_of(p).contains(x) by {
        let i = choose|i: int| 0 <= i < raw.len() && (#[trigger] raw[i]).0 != raw[i].1 && x == norm_edge(raw[i]);
        assert(p[i] == raw[i]);
        assert(0 <= i < p.len() && p[i].0 != p[i].1 && x == norm_edge(p[i]));
    }
    if e.0 != e.1 {
        assert(p[raw.len() as int] == e);
        assert(edge_set_of(p).contains(norm_edge(e)));
        assert forall|x: Edge| edge_set_of(p).contains(x) implies edge_set_of(raw).insert(
            norm_edge(e),
        ).contains(x) by {
            let i = choose|i: int| 0 <= i < p.len() && (#[trigger] p[i]).0 != p[i].1 && x == norm_edge(p[i]);
            if i < raw.len() {
                assert(raw[i] == p[i]);
                assert(edge_set_of(raw).contains(x));
            } else {
                assert(p[i] == e);
            }
        }
        assert(edge_set_of(p) =~= edge_set_of(raw).insert(norm_edge(e)));
    } else {
        assert forall|x: Edge| edge_set_of(p).contains(x) implies edge_set_of(raw).contains(x) by {
            let i = choose|i: int| 0 <= i < p.len() && (#[trigger] p[i]).0 != p[i].1 && x == norm_edge(p[i]);
            assert(i < raw.len());
            assert(raw[i] == p[i]);
        }
        assert(edge_set_of(p) =~= edge_set_of(raw));
    }
}

/// Relabeling a strictly sorted list of normalized non-loop edges keeps it
/// strictly sorted and non-loop, keeps every first endpoint below every
/// second, and pins its vertex extremes to `0` and the used count minus one.
pub proof fn lemma_relabel_shape(es: Seq<Edge>, bound: int)
    requires
        strictly_sorted(es),
        es.len() > 0,
        forall|i: int| 0 <= i < es.len() ==> (#[trigger] es[i]).0 < es[i].1,
        forall|i: int| 0 <= i < es.len() ==> (#[trigger] es[i]).1 < bound,
        bound <= u32::MAX,
    ensures
        strictly_sorted(relabel_all(es)),
        relabel_all(es).len() == es.len(),
        forall|i: int|
            0 <= i < es.len() ==> (#[trigger] relabel_all(es)[i]).0 < relabel_all(es)[i].1,
        node_min(relabel_all(es)) == 0,
        node_max(relabel_all(es)) + 1 == rank_up_to(es, bound),
        rank_up_to(es, bound) <= bound,
{
    let out = relabel_all(es);
    assert(es[0].1 < bound);
    assert(bound >= 1);
    assert forall|v: crate::graph::Node| seq_uses(es, v) implies v < bound by {
        let i = choose|i: int| 0 <= i < es.len() && ((#[trigger] es[i]).0 == v || es[i].1 == v);
    }
    lemma_rank_le(es, bound);
    assert forall|i: int| 0 <= i < es.len() implies (#[trigger] out[i]).0 < out[i].1 by {
        assert(seq_uses(es, es[i].0)) by {
            assert((es[i]).0 == es[i].0 || es[i].1 == es[i].0);
        }
        lemma_rank_strict_mono(es, es[i].0, es[i].1 as int);
        lemma_rank_le(es, es[i].0 as int);
        lemma_rank_le(es, es[i].1 as int);
    }
    assert forall|i: int, j: int| 0 <= i < j < out.len() implies crate::graph::edge_lt(
        #[trigger] out[i],
        #[trigger] out[j],
    ) by {
        assert(crate::graph::edge_lt(es[i], es[j]));
        assert(seq_uses(es, es[i].0)) by {
            assert((es[i]).0 == es[i].0 || es[i].1 == es[i].0);
        }
        assert(seq_uses(es, es[i].1)) by {
            assert((es[i]).0 == es[i].1 || es[i].1 == es[i].1);
        }
        lemma_rank_le(es, es[i].0 as int);
        lemma_rank_le(es, es[i].1 as int);
        lemma_rank_le(es, es[j].0 as int);
        lemma_rank_le(es, es[j].1 as int);
        if es[i].0 < es[j].0 {
            lemma_rank_strict_mono(es, es[i].0, es[j].0 as int);
        } else {
            lemma_rank_strict_mono(es, es[i].1, es[j].1 as int);
        }
    }
    // the smallest used vertex is relabeled to 0
    lemma_node_min_props(es);
    let i0 = choose|i: int|
        0 <= i < es.len() && node_min(es) == crate::graph::min_node_spec(#[trigger] es[i]);
    let u0 = node_min(es);
    assert(seq_uses(es, u0)) by {
        assert((es[i0]).0 == u0 || es[i0].1 == u0);
    }
    assert forall|w: crate::graph::Node| w < u0 implies !seq_uses(es, w) by {
        if seq_uses(es, w) {
            let k = choose|k: int| 0 <= k < es.len() && ((#[trigger] es[k]).0 == w || es[k].1 == w);
            assert(node_min(es) <= crate::graph::min_node_spec(es[k]));
        }
    }
    lemma_rank_zero_below(es, u0 as int);
    assert(rank_up_to(es, u0 as int) == 0);
    assert(out[i0] == relabel_edge(es, es[i0]));
    assert(out[i0].0 == 0 || out[i0].1 == 0) by {
        if es[i0].0 == u0 {
            assert(out[i0].0 == rank_up_to(es, u0 as int));
        } else {
            assert(es[i0].1 == u0);
            assert(out[i0].1 == rank_up_to(es, u0 as int));
        }
    }
    lemma_node_min_props(out);
    assert(node_min(out) <= crate::graph::min_node_spec(out[i0]));
    assert(node_min(out) == 0);
    // the largest used vertex is relabeled to the used count minus one
    lemma_node_max_props(es);
    let i1 = choose|i: int|
        0 <= i < es.len() && node_max(es) == crate::graph::max_node_spec(#[trigger] es[i]);
    let u1 = node_max(es);
    assert(seq_uses(es, u1)) by {
        assert((es[i1]).0 == u1 || es[i1].1 == u1);
    }
    assert forall|w: crate::graph::Node| w > u1 implies !seq_uses(es, w) by {
        if seq_uses(es, w) {
            let k = choose|k: int| 0 <= k < es.len() && ((#[trigger] es[k]).0 == w || es[k].1 == w);
            assert(crate::graph::max_node_spec(es[k]) <= node_max(es));
        }
    }
    assert(u1 < bound) by {
        assert(crate::graph::max_node_spec(es[i1]) == es[i1].1);
        assert(es[i1].1 < bound);
    }
    assert(rank_up_to(es, bound) == rank_up_to(es, u1 as int) + 1) by {
        lemma_rank_flat_above(es, u1 as int + 1, bound);
        assert(rank_up_to(es, u1 as int + 1) == rank_up_to(es, u1 as int) + 1);
    }
    lemma_node_max_props(out);
    assert forall|i: int| 0 <= i < out.len() implies crate::graph::max_node_spec(#[trigger] out[i])
        <= rank_up_to(es, u1 as int) by {
        assert(seq_uses(es, es[i].0)) by {
            assert((es[i]).0 == es[i].0 || es[i].1 == es[i].0);
        }
        assert(seq_uses(es, es[i].1)) by {
            assert((es[i]).0 == es[i].1 || es[i].1 == es[i].1);
        }
        assert(es[i].0 <= u1 && es[i].1 <= u1) by {
            assert(crate::graph::max_node_spec(es[i]) <= node_max(es));
        }
        lemma_rank_nondecreasing(es, es[i].0 as int, u1 as int);
        lemma_rank_nondecreasing(es, es[i].1 as int, u1 as int);
        lemma_rank_le(es, es[i].0 as int);
        lemma_rank_le(es, es[i].1 as int);
    }
    lemma_rank_le(es, u1 as int);
    assert(out[i1] == relabel_edge(es, es[i1]));
    assert(es[i1].1 == u1) by {
        assert(es[i1].0 < es[i1].1);
    }
    assert(out[i1].1 == rank_up_to(es, u1 as int));
    assert(crate::graph::max_node_spec(out[i1]) == rank_up_to(es, u1 as int)) by {
        lemma_rank_le(es, u1 as int);
    }
    assert(node_max(out) == rank_up_to(es, u1 as int));
}

/// Above the largest used vertex the relabeling stays flat.
proof fn lemma_rank_flat_above(es: Seq<Edge>, a: int, b: int)
    requires
        a <= b,
        b <= u32::MAX,
        forall|w: crate::graph::Node| a <= w ==> !seq_uses(es, w),
        a >= 1,
    ensures
        rank_up_to(es, a) == rank_up_to(es, b),
    decreases b - a,
{
    if a < b {
        lemma_rank_flat_above(es, a + 1, b);
        assert(!seq_uses(es, a as u32));
    }
}

/// Canonicalizes a raw PACE document: parse, normalize the edges to
/// `(min, max)` order, drop self-loops and duplicates, relabel the used
/// vertex ids densely, and emit the canonical bytes with their SHA-256.
/// With `check_header` the distinct-edge count must match the header.
pub fn normalize_dimacs(data: &[u8], check_header: bool) -> (r: Result<
    CanonicalInstance,
    CoreError,
>)
    ensures
        r is Ok <==> canon_ok(data@, check_header),
        r matches Ok(ci) ==> {
            let raw = parse_instance(data@)->Some_0.3;
            &&& ci.data@ == canon_bytes(raw)
            &&& ci.hash@ == sha256_of(canon_bytes(raw))
            &&& ci.hash@.len() == 32
            &&& ci.nodes == canon_node_count(raw)
            &&& ci.edges == canon_edges(raw).len()
        },
        r matches Err(e) ==> e.kind == ErrorKind::BadInput,
{
    let mut reader = match PaceReader::try_new(data) {
        Ok(rd) => rd,
        Err(e) => {
            return Err(e);
        },
    };
    let ghost r0 = reader.rest();
    let ghost n = reader.n_spec();
    let ghost gid = reader.id_spec();
    let ghost gm = reader.m_spec();
    let m_header = reader.number_of_edges();
    let n_header = reader.number_of_nodes();
    let mut nes: Vec<Edge> = Vec::new();
    let ghost mut graw: Seq<Edge> = Seq::<Edge>::empty();
    proof {
        if parse_edges(r0, n) is Some {
            let s = parse_edges(r0, n)->Some_0;
            assert(graw + s =~= s);
        }
        assert(edge_set_of(graw) =~= Set::<Edge>::empty());
        assert(nes@.to_set() =~= Set::<Edge>::empty());
    }
    loop
        invariant
            reader.wf(),
            reader.n_spec() == n,
            reader.id_spec() == gid,
            reader.m_spec() == gm,
            n == n_header,
            gm == m_header,
            header_of(data@) == Some((gid, n, gm)),
            r0 == body_lines(data@),
            parse_edges(r0, n) == (match parse_edges(reader.rest(), n) {
                Option::Some(s) => Option::Some(graw + s),
                Option::None => Option::None::<Seq<Edge>>,
            }),
            nes@.to_set() == edge_set_of(graw),
            forall|i: int| 0 <= i < graw.len() ==> (#[trigger] graw[i]).0 < n && graw[i].1 < n,
            forall|i: int|
                0 <= i < nes@.len() ==> (#[trigger] nes@[i]).0 < nes@[i].1 && nes@[i].1 < n,
        ensures
            parse_edges(r0, n) == Some(graw),
        decreases reader.rest().len() + 1,
    {
        let step = reader.next_edge();
        match step {
            Err(e) => {
                proof {
                    assert(parse_edges(r0, n) is None);
                    assert(parse_instance(data@) is None);
                    assert(!canon_ok(data@, check_header));
                }
                return Err(CoreError::bad_input("malformed edge line"));
            },
            Ok(None) => {
                proof {
                    assert(parse_edges(r0, n) == Some(graw + Seq::<Edge>::empty()));
                    assert(graw + Seq::<Edge>::empty() =~= graw);
                }
                break ;
            },
            Ok(Some(e)) => {
                proof {
                    let old_rest_parse = parse_edges(reader.rest(), n);
                    lemma_edge_set_push(graw, e);
                    if parse_edges(r0, n) is Some {
                    }
                }
                let ghost prev_graw = graw;
                proof {
                    graw = graw.push(e);
                    assert forall|s: Seq<Edge>| true implies prev_graw + (seq![e] + s) =~= graw
                        + s by {
                        assert(prev_graw + (seq![e] + s) =~= prev_graw.push(e) + s);
                    }
                }
                if e.0 != e.1 {
                    let ne = e.normalized();
                    let ghost old_nes = nes@;
                    nes.push(ne);
                    proof {
                        old_nes.lemma_push_to_set_commute(ne);
                        assert(nes@ =~= old_nes.push(ne));
                        assert(nes@.to_set() =~= edge_set_of(graw));
                    }
                } else {
                    proof {
                        assert(nes@.to_set() == edge_set_of(graw));
                    }
                }
            },
        }
    }
    // graw is now the full parsed edge list
    proof {
        assert(parse_edges(r0, n) == Some(graw));
        assert(parse_instance(data@) == Some((gid, n, gm, graw)));
    }
    let ghost raw = graw;
    if nes.len() == 0 {
        proof {
            assert(nes@.to_set() =~= Set::<Edge>::empty());
            assert(edge_set_of(raw) == Set::<Edge>::empty());
        }
        return Err(CoreError::bad_input("no edges after normalization"));
    }
    proof {
        assert(nes@.to_set().contains(nes@[0]));
        assert(edge_set_of(raw) != Set::<Edge>::empty()) by {
            assert(edge_set_of(raw).contains(nes@[0]));
        }
    }
    let sorted = sort_edges(nes);
    let ces = dedup_sorted_edges(sorted);
    let ghost gces = ces@;
    proof {
        broadcast use vstd::seq_lib::group_to_multiset_ensures;

        crate::graph::lemma_edge_le_total();
        assert forall|e: Edge| sorted@.to_set().contains(e) <==> edge_set_of(raw).contains(e) by {
            if sorted@.contains(e) {
                assert(sorted@.to_multiset().count(e) > 0);
            }
            if edge_set_of(raw).contains(e) {
                assert(sorted@.to_multiset().count(e) > 0);
                assert(sorted@.contains(e));
            }
        }
        assert(sorted@.to_set() =~= edge_set_of(raw));
        assert(gces.to_set() == edge_set_of(raw));
        lemma_sorted_seq_of_witness(gces);
        assert(sorted_seq_of(edge_set_of(raw)) == gces);
        if gces.len() == 0 {
            assert(gces.to_set() =~= Set::<Edge>::empty());
            assert(edge_set_of(raw).contains(nes@[0]));
        }
        assert(gces.len() > 0);
        // every canonical edge is a normalized non-loop edge below n
        assert forall|i: int| 0 <= i < gces.len() implies (#[trigger] gces[i]).0 < gces[i].1
            && gces[i].1 < n by {
            assert(gces.to_set().contains(gces[i]));
            assert(edge_set_of(raw).contains(gces[i]));
            let k = choose|k: int|
                0 <= k < raw.len() && (#[trigger] raw[k]).0 != raw[k].1 && gces[i] == norm_edge(
                    raw[k],
                );
        }
    }
    if check_header {
        let count = ces.len() as u64;
        if count != m_header {
            return Err(CoreError::bad_input("edge count does not match the header"));
        }
    }
    // mark the used vertex ids
    let nsz = n_header as usize;
    let mut used: Vec<bool> = Vec::new();
    let mut fill: usize = 0;
    while fill < nsz
        invariant
            used@.len() == fill,
            fill <= nsz,
            forall|v: int| 0 <= v < fill ==> !(#[trigger] used@[v]),
        decreases nsz - fill,
    {
        used.push(false);
        fill = fill + 1;
    }
    let mut j: usize = 0;
    proof {
        assert forall|v: int| 0 <= v < nsz implies used@[v] == seq_uses(
            gces.subrange(0, 0),
            v as u32,
        ) by {
            assert(gces.subrange(0, 0).len() == 0);
        }
    }
    while j < ces.len()
        invariant
            0 <= j <= gces.len(),
            gces == ces@,
            used@.len() == nsz,
            n == n_header,
            nsz == n_header as usize,
            forall|i: int| 0 <= i < gces.len() ==> (#[trigger] gces[i]).0 < gces[i].1 && gces[i].1 < n,
            forall|v: int| 0 <= v < nsz ==> used@[v] == seq_uses(gces.subrange(0, j as int), v as u32),
        decreases gces.len() - j,
    {
        let e = ces[j];
        let ghost pre = gces.subrange(0, j as int);
        let ghost post = gces.subrange(0, j as int + 1);
        used[e.0 as usize] = true;
        used[e.1 as usize] = true;
        proof {
            assert(post.drop_last() =~= pre);
            assert(post.last() == e);
            assert forall|v: int| 0 <= v < nsz implies used@[v] == seq_uses(post, v as u32) by {
                if v == e.0 as int || v == e.1 as int {
                    assert(post[j as int] == e);
                    assert(seq_uses(post, v as u32));
                } else {
                    assert(used@[v] == seq_uses(pre, v as u32));
                    if seq_uses(pre, v as u32) {
                        let k = choose|k: int|
                            0 <= k < pre.len() && ((#[trigger] pre[k]).0 == v as u32 || pre[k].1
                                == v as u32);
                        assert(post[k] == pre[k]);
                        assert(seq_uses(post, v as u32));
                    }
                    if seq_uses(post, v as u32) {
                        let k = choose|k: int|
                            0 <= k < post.len() && ((#[trigger] post[k]).0 == v as u32 || post[k].1
                                == v as u32);
                        assert(k < pre.len());
                        assert(pre[k] == post[k]);
                        assert(seq_uses(pre, v as u32));
                    }
                }
            }
        }
        j = j + 1;
    }
    proof {
        assert(gces.subrange(0, j as int) =~= gces);
    }
    // exclusive prefix sums over the usage bitmap: the dense relabeling
    let mut ranks: Vec<u32> = Vec::new();
    let mut sum: u32 = 0;
    let mut v: usize = 0;
    while v < nsz
        invariant
            0 <= v <= nsz,
            used@.len() == nsz,
            ranks@.len() == v,
            n == n_header,
            nsz == n_header as usize,
            sum == rank_up_to(gces, v as int),
            sum <= v,
            forall|w: int| 0 <= w < v ==> #[trigger] ranks@[w] == rank_up_to(gces, w),
            forall|w: int| 0 <= w < nsz ==> used@[w] == seq_uses(gces, w as u32),
        decreases nsz - v,
    {
        ranks.push(sum);
        if used[v] {
            sum = sum + 1;
        }
        v = v + 1;
    }
    // remap both endpoints of every edge
    let mut out_edges: Vec<Edge> = Vec::new();
    let mut k: usize = 0;
    while k < ces.len()
        invariant
            0 <= k <= gces.len(),
            gces == ces@,
            ranks@.len() == nsz,
            n == n_header,
            nsz == n_header as usize,
            forall|i: int| 0 <= i < gces.len() ==> (#[trigger] gces[i]).0 < gces[i].1 && gces[i].1 < n,
            forall|w: int| 0 <= w < nsz ==> #[trigger] ranks@[w] == rank_up_to(gces, w),
            out_edges@ == relabel_all(gces).subrange(0, k as int),
        decreases gces.len() - k,
    {
        let e = ces[k];
        let re = Edge(ranks[e.0 as usize], ranks[e.1 as usize]);
        out_edges.push(re);
        proof {
            assert(re == relabel_edge(gces, e));
            assert(relabel_all(gces)[k as int] == relabel_edge(gces, gces[k as int]));
            assert(out_edges@ =~= relabel_all(gces).subrange(0, k as int + 1));
        }
        k = k + 1;
    }
    proof {
        assert(out_edges@ =~= relabel_all(gces));
    }
    let ghost gout = out_edges@;
    proof {
        lemma_relabel_shape(gces, n as int);
        assert(gout.len() > 0);
        assert(node_min(gout) == 0);
        assert(node_max(gout) - node_min(gout) + 1 == rank_up_to(gces, n as int));
        assert(node_max(gout) - node_min(gout) + 1 <= u32::MAX);
    }
    let mut pid: Vec<u8> = Vec::new();
    pid.push(100);
    pid.push(115);
    proof {
        assert(pid@ =~= problem_id_bytes());
    }
    let written = match pace_writer(&pid, out_edges) {
        Ok(t) => t,
        Err(_) => {
            proof {
                assert(false);
            }
            return Err(CoreError::bad_input("unreachable"));
        },
    };
    let (out_n, out_m, out_bytes) = written;
    proof {
        assert(out_bytes@ == write_bytes(
            problem_id_bytes(),
            gout,
            node_min(gout),
            out_n as nat,
            out_m as nat,
        ));
        assert(gout == canon_edges(raw));
        assert(out_n as nat == canon_node_count(raw));
        assert(out_bytes@ == canon_bytes(raw));
    }
    let hash = sha256(&out_bytes);
    Ok(
        CanonicalInstance {
            nodes: out_n,
            edges: out_m,
            hash,
            data: out_bytes,
        },
    )
}

} // verus!
