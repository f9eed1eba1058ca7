//! The canonicalization laws: reading a written document yields the same
//! edges back, canonicalization is idempotent, and canonical bytes are
//! insensitive to edge order, duplicates, self-loops and unused vertex ids.
use vstd::prelude::*;

use crate::canonical::{
    canon_bytes, canon_edges, canon_node_count, canon_ok, edge_set_of, lemma_sorted_seq_of_witness,
    problem_id_bytes, rank_up_to, relabel_all, relabel_edge, seq_uses, sha256_of, sorted_seq_of,
};
use crate::graph::{norm_edge, strictly_sorted, Edge, NumEdges, NumNodes};
use crate::instance_reader::{
    body_lines, first_noncomment, header_of, is_comment, lemma_first_noncomment, parse_edge_line_spec,
    parse_edges, parse_header_line, parse_instance,
};
use crate::instance_writer::{
    edge_line_bytes, edge_lines_bytes, header_line_bytes, lemma_node_max_props, node_max, node_min,
    write_bytes,
};
use crate::text::{
    all_digits, dec_repr, dec_value, lemma_concat_not_contains, lemma_dec_repr_digits,
    lemma_dec_value_of_repr, lemma_digits_plain, lemma_split_lines_line, lemma_split_ws_space,
    lemma_split_ws_token, split_lines, split_ws, valid_number, NEWLINE, SPACE,
};

verus! {

/// The bytes of one edge line without its newline.
pub open spec fn edge_line_content(e: Edge) -> Seq<u8> {
    dec_repr((e.0 + 1) as nat) + seq![SPACE] + dec_repr((e.1 + 1) as nat)
}

/// The bytes of the header line without its newline.
pub open spec fn header_content(id: Seq<u8>, n: nat, m: nat) -> Seq<u8> {
    seq![112u8, SPACE] + id + seq![SPACE] + dec_repr(n) + seq![SPACE] + dec_repr(m)
}

/// The header line tokenizes into `p`, the id, and the two numerals.
proof fn lemma_header_tokens(id: Seq<u8>, n: nat, m: nat)
    requires
        id.len() > 0,
        !id.contains(SPACE),
    ensures
        split_ws(header_content(id, n, m)) == seq![seq![112u8], id, dec_repr(n), dec_repr(m)],
{
    let hc = header_content(id, n, m);
    let dn = dec_repr(n);
    let dm = dec_repr(m);
    lemma_dec_repr_digits(n);
    lemma_dec_repr_digits(m);
    lemma_digits_plain(dn);
    lemma_digits_plain(dm);
    let rest1 = seq![SPACE] + id + seq![SPACE] + dn + seq![SPACE] + dm;
    let rest2 = id + (seq![SPACE] + dn + seq![SPACE] + dm);
    let rest3 = seq![SPACE] + dn + seq![SPACE] + dm;
    let rest4 = dn + (seq![SPACE] + dm);
    let rest5 = seq![SPACE] + dm;
    assert(hc =~= seq![112u8] + rest1);
    assert(!seq![112u8].contains(SPACE)) by {
        if seq![112u8].contains(SPACE) {
            let i = choose|i: int| 0 <= i < 1 && seq![112u8][i] == SPACE;
        }
    }
    assert(rest1[0] == SPACE);
    lemma_split_ws_token(seq![112u8], rest1);
    assert(split_ws(hc) == seq![seq![112u8]] + split_ws(rest1));
    assert(rest1 =~= seq![SPACE] + (id + (seq![SPACE] + dn + seq![SPACE] + dm)));
    lemma_split_ws_space(id + (seq![SPACE] + dn + seq![SPACE] + dm));
    assert(split_ws(rest1) == split_ws(rest2));
    assert((seq![SPACE] + dn + seq![SPACE] + dm)[0] == SPACE);
    lemma_split_ws_token(id, seq![SPACE] + dn + seq![SPACE] + dm);
    assert(split_ws(rest2) == seq![id] + split_ws(seq![SPACE] + dn + seq![SPACE] + dm));
    assert(seq![SPACE] + dn + seq![SPACE] + dm =~= seq![SPACE] + (dn + (seq![SPACE] + dm)));
    lemma_split_ws_space(dn + (seq![SPACE] + dm));
    assert(split_ws(seq![SPACE] + dn + seq![SPACE] + dm) == split_ws(rest4));
    assert(rest5[0] == SPACE);
    lemma_split_ws_token(dn, rest5);
    assert(split_ws(rest4) == seq![dn] + split_ws(rest5));
    assert(rest5 =~= seq![SPACE] + dm);
    lemma_split_ws_space(dm);
    assert(split_ws(rest5) == split_ws(dm));
    lemma_split_ws_token(dm, Seq::<u8>::empty());
    assert(dm + Seq::<u8>::empty() =~= dm);
    assert(split_ws(Seq::<u8>::empty()) =~= Seq::<Seq<u8>>::empty());
    assert(seq![dm] + Seq::<Seq<u8>>::empty() =~= seq![dm]);
    assert(split_ws(dm) == seq![dm]);
    assert(seq![seq![112u8]] + (seq![id] + (seq![dn] + seq![dm])) =~= seq![
        seq![112u8],
        id,
        dn,
        dm,
    ]);
}

/// The header line parses back to its id and sizes.
proof fn lemma_header_parses(id: Seq<u8>, n: nat, m: nat)
    requires
        id.len() > 0,
        !id.contains(SPACE),
        n < 0x1_0000_0000,
        m < 0x1_0000_0000_0000_0000,
    ensures
        parse_header_line(header_content(id, n, m)) == Some((id, n as NumNodes, m as NumEdges)),
{
    lemma_header_tokens(id, n, m);
    lemma_dec_repr_digits(n);
    lemma_dec_repr_digits(m);
    lemma_dec_value_of_repr(n);
    lemma_dec_value_of_repr(m);
    let toks = split_ws(header_content(id, n, m));
    assert(toks.len() == 4);
    assert(toks[0] == seq![112u8] && toks[1] == id && toks[2] == dec_repr(n) && toks[3] == dec_repr(
        m,
    ));
    assert(toks[0][0] == 112);
    assert(valid_number(toks[2], 0x1_0000_0000));
    assert(valid_number(toks[3], 0x1_0000_0000_0000_0000));
}

/// An edge line tokenizes into its two numerals.
proof fn lemma_edge_tokens(e: Edge)
    requires
        e.0 < u32::MAX,
        e.1 < u32::MAX,
    ensures
        split_ws(edge_line_content(e)) == seq![dec_repr((e.0 + 1) as nat), dec_repr(
            (e.1 + 1) as nat,
        )],
{
    let du = dec_repr((e.0 + 1) as nat);
    let dv = dec_repr((e.1 + 1) as nat);
    lemma_dec_repr_digits((e.0 + 1) as nat);
    lemma_dec_repr_digits((e.1 + 1) as nat);
    lemma_digits_plain(du);
    lemma_digits_plain(dv);
    let rest = seq![SPACE] + dv;
    assert(edge_line_content(e) =~= du + rest);
    assert(rest[0] == SPACE);
    lemma_split_ws_token(du, rest);
    lemma_split_ws_space(dv);
    assert(split_ws(rest) == split_ws(dv));
    lemma_split_ws_token(dv, Seq::<u8>::empty());
    assert(dv + Seq::<u8>::empty() =~= dv);
    assert(split_ws(Seq::<u8>::empty()) =~= Seq::<Seq<u8>>::empty());
    assert(seq![dv] + Seq::<Seq<u8>>::empty() =~= seq![dv]);
    assert(split_ws(dv) == seq![dv]);
    assert(seq![du] + seq![dv] =~= seq![du, dv]);
}

/// An edge line parses back to its zero-based edge.
proof fn lemma_edge_parses(e: Edge, n: NumNodes)
    requires
        e.0 < n,
        e.1 < n,
    ensures
        parse_edge_line_spec(edge_line_content(e), n) == Some(e),
{
    lemma_edge_tokens(e);
    lemma_dec_repr_digits((e.0 + 1) as nat);
    lemma_dec_repr_digits((e.1 + 1) as nat);
    lemma_dec_value_of_repr((e.0 + 1) as nat);
    lemma_dec_value_of_repr((e.1 + 1) as nat);
    let toks = split_ws(edge_line_content(e));
    assert(toks.len() == 2);
    assert(valid_number(toks[0], 0x1_0000_0000));
    assert(valid_number(toks[1], 0x1_0000_0000));
    assert(dec_value(toks[0]) == e.0 + 1);
    assert(dec_value(toks[1]) == e.1 + 1);
}

/// An edge line holds no newline.
proof fn lemma_edge_content_plain(e: Edge)
    ensures
        !edge_line_content(e).contains(NEWLINE),
        edge_line_content(e).len() > 0,
        edge_line_content(e)[0] != 99,
{
    let du = dec_repr((e.0 + 1) as nat);
    let dv = dec_repr((e.1 + 1) as nat);
    lemma_dec_repr_digits((e.0 + 1) as nat);
    lemma_dec_repr_digits((e.1 + 1) as nat);
    lemma_digits_plain(du);
    lemma_digits_plain(dv);
    assert(!seq![SPACE].contains(NEWLINE)) by {
        if seq![SPACE].contains(NEWLINE) {
            let i = choose|i: int| 0 <= i < 1 && seq![SPACE][i] == NEWLINE;
        }
    }
    lemma_concat_not_contains(du, seq![SPACE], NEWLINE);
    lemma_concat_not_contains(du + seq![SPACE], dv, NEWLINE);
    assert(edge_line_content(e)[0] == du[0]);
}

/// The emitted edge lines split back into the individual line contents.
proof fn lemma_split_edge_lines(es: Seq<Edge>)
    ensures
        split_lines(edge_lines_bytes(es, 0)) == Seq::new(
            es.len(),
            |i: int| edge_line_content(es[i]),
        ),
    decreases es.len(),
{
    if es.len() == 0 {
        assert(split_lines(edge_lines_bytes(es, 0)) =~= Seq::new(
            es.len(),
            |i: int| edge_line_content(es[i]),
        ));
    } else {
        lemma_split_edge_lines(es.drop_first());
        let e = es[0];
        lemma_edge_content_plain(e);
        let content = edge_line_content(e);
        let rest = edge_lines_bytes(es.drop_first(), 0);
        assert(edge_line_bytes(e, 0) =~= content + seq![NEWLINE]);
        assert(edge_lines_bytes(es, 0) =~= content + seq![NEWLINE] + rest);
        lemma_split_lines_line(content, rest);
        assert(split_lines(edge_lines_bytes(es, 0)) == seq![content] + split_lines(rest));
        assert(seq![content] + Seq::new(es.drop_first().len(), |i: int| edge_line_content(es.drop_first()[i]))
            =~= Seq::new(es.len(), |i: int| edge_line_content(es[i])));
    }
}

/// The written edge lines parse back to the written edges.
proof fn lemma_parse_edge_lines(es: Seq<Edge>, n: NumNodes)
    requires
        forall|i: int| 0 <= i < es.len() ==> (#[trigger] es[i]).0 < n && es[i].1 < n,
    ensures
        parse_edges(Seq::new(es.len(), |i: int| edge_line_content(es[i])), n) == Some(es),
    decreases es.len(),
{
    let lines = Seq::new(es.len(), |i: int| edge_line_content(es[i]));
    if es.len() == 0 {
        assert(parse_edges(lines, n) == Some(Seq::<Edge>::empty()));
        assert(Seq::<Edge>::empty() =~= es);
    } else {
        lemma_parse_edge_lines(es.drop_first(), n);
        let e = es[0];
        lemma_edge_content_plain(e);
        lemma_edge_parses(e, n);
        assert(lines[0] == edge_line_content(e));
        assert(!is_comment(lines[0]));
        assert(lines.drop_first() =~= Seq::new(
            es.drop_first().len(),
            |i: int| edge_line_content(es.drop_first()[i]),
        ));
        assert(parse_edges(lines.drop_first(), n) == Some(es.drop_first()));
        assert(seq![e] + es.drop_first() =~= es);
    }
}

/// Reading a written document yields the id, the sizes, and the edges back.
pub proof fn lemma_parse_write(id: Seq<u8>, es: Seq<Edge>, n: nat, m: nat)
    requires
        id.len() > 0,
        !id.contains(SPACE),
        !id.contains(NEWLINE),
        n < 0x1_0000_0000,
        m < 0x1_0000_0000_0000_0000,
        forall|i: int| 0 <= i < es.len() ==> (#[trigger] es[i]).0 < n && es[i].1 < n,
    ensures
        parse_instance(write_bytes(id, es, 0, n, m)) == Some(
            (id, n as NumNodes, m as NumEdges, es),
        ),
{
    let wb = write_bytes(id, es, 0, n, m);
    let hc = header_content(id, n, m);
    let elines = Seq::new(es.len(), |i: int| edge_line_content(es[i]));
    lemma_dec_repr_digits(n);
    lemma_dec_repr_digits(m);
    lemma_digits_plain(dec_repr(n));
    lemma_digits_plain(dec_repr(m));
    assert(!seq![112u8, SPACE].contains(NEWLINE)) by {
        if seq![112u8, SPACE].contains(NEWLINE) {
            let i = choose|i: int| 0 <= i < 2 && seq![112u8, SPACE][i] == NEWLINE;
        }
    }
    assert(!seq![SPACE].contains(NEWLINE)) by {
        if seq![SPACE].contains(NEWLINE) {
            let i = choose|i: int| 0 <= i < 1 && seq![SPACE][i] == NEWLINE;
        }
    }
    lemma_concat_not_contains(seq![112u8, SPACE], id, NEWLINE);
    lemma_concat_not_contains(seq![112u8, SPACE] + id, seq![SPACE], NEWLINE);
    lemma_concat_not_contains(seq![112u8, SPACE] + id + seq![SPACE], dec_repr(n), NEWLINE);
    lemma_concat_not_contains(
        seq![112u8, SPACE] + id + seq![SPACE] + dec_repr(n),
        seq![SPACE],
        NEWLINE,
    );
    lemma_concat_not_contains(
        seq![112u8, SPACE] + id + seq![SPACE] + dec_repr(n) + seq![SPACE],
        dec_repr(m),
        NEWLINE,
    );
    assert(!hc.contains(NEWLINE));
    assert(header_line_bytes(id, n, m) =~= hc + seq![NEWLINE]);
    assert(wb =~= hc + seq![NEWLINE] + edge_lines_bytes(es, 0));
    lemma_split_lines_line(hc, edge_lines_bytes(es, 0));
    lemma_split_edge_lines(es);
    let lines = split_lines(wb);
    assert(lines == seq![hc] + elines);
    assert(lines[0] == hc);
    assert(hc[0] == 112);
    assert(!is_comment(lines[0]));
    lemma_first_noncomment(lines);
    assert(first_noncomment(lines) == 0) by {
        if first_noncomment(lines) > 0 {
            assert(is_comment(lines[0]));
        }
    }
    lemma_header_parses(id, n, m);
    assert(header_of(wb) == Some((id, n as NumNodes, m as NumEdges)));
    assert(body_lines(wb) =~= elines);
    lemma_parse_edge_lines(es, n as NumNodes);
    assert(parse_edges(body_lines(wb), n as NumNodes) == Some(es));
}

/// Below `v` every id is used, so the relabeling is the identity there.
proof fn lemma_rank_identity(es: Seq<Edge>, v: int)
    requires
        0 <= v <= u32::MAX + 1,
        forall|w: u32| w < v ==> seq_uses(es, w),
    ensures
        rank_up_to(es, v) == v,
    decreases v,
{
    if v > 0 {
        lemma_rank_identity(es, v - 1);
        assert(seq_uses(es, (v - 1) as u32));
    }
}

/// Every value below the used count is the rank of some used id.
proof fn lemma_rank_surjective(es: Seq<Edge>, bound: int, v: int)
    requires
        0 <= v < rank_up_to(es, bound),
        bound <= u32::MAX + 1,
    ensures
        exists|u: u32| u < bound && #[trigger] seq_uses(es, u) && rank_up_to(es, u as int) == v,
    decreases bound,
{
    if bound > 0 {
        let r1 = rank_up_to(es, bound - 1);
        if v < r1 {
            lemma_rank_surjective(es, bound - 1, v);
            let u = choose|u: u32|
                u < bound - 1 && #[trigger] seq_uses(es, u) && rank_up_to(es, u as int) == v;
            assert(u < bound && seq_uses(es, u) && rank_up_to(es, u as int) == v);
        } else {
            assert(seq_uses(es, (bound - 1) as u32));
            assert(v == r1);
            assert(((bound - 1) as u32) < bound && seq_uses(es, (bound - 1) as u32) && rank_up_to(
                es,
                (bound - 1) as u32 as int,
            ) == v);
        }
    }
}

/// A sequence of already normalized, loop-free edges is its own edge set.
pub proof fn lemma_edge_set_of_normal(es: Seq<Edge>)
    requires
        forall|i: int| 0 <= i < es.len() ==> (#[trigger] es[i]).0 < es[i].1,
    ensures
        edge_set_of(es) == es.to_set(),
{
    assert forall|x: Edge| edge_set_of(es).contains(x) implies es.to_set().contains(x) by {
        let i = choose|i: int|
            0 <= i < es.len() && (#[trigger] es[i]).0 != es[i].1 && x == norm_edge(es[i]);
        assert(norm_edge(es[i]) == es[i]);
    }
    assert forall|x: Edge| es.to_set().contains(x) implies edge_set_of(es).contains(x) by {
        let i = choose|i: int| 0 <= i < es.len() && es[i] == x;
        assert(es[i].0 != es[i].1 && x == norm_edge(es[i]));
    }
    assert(edge_set_of(es) =~= es.to_set());
}

/// Canonical insensitivity: raw edge sequences with the same normalized
/// edge set canonicalize to the same edge list, bytes, and hash, whatever
/// the edge order, duplicates, self-loops or surrounding text were.
pub proof fn lemma_canonical_insensitive(raw1: Seq<Edge>, raw2: Seq<Edge>)
    requires
        edge_set_of(raw1) == edge_set_of(raw2),
    ensures
        canon_edges(raw1) == canon_edges(raw2),
        canon_bytes(raw1) == canon_bytes(raw2),
        sha256_of(canon_bytes(raw1)) == sha256_of(canon_bytes(raw2)),
{
}

/// Canonical idempotence: parsing the canonical bytes and canonicalizing
/// again returns the same edges, the same sizes, and the same bytes, so
/// the hash is unchanged too. `ces` is the sorted distinct edge list that
/// a run of the canonicalizer computed for `raw`.
pub proof fn lemma_canonical_idempotent(raw: Seq<Edge>, ces: Seq<Edge>)
    requires
        strictly_sorted(ces),
        ces.to_set() == edge_set_of(raw),
        ces.len() > 0,
        forall|i: int| 0 <= i < ces.len() ==> (#[trigger] ces[i]).0 < ces[i].1,
        node_max(ces) < u32::MAX,
        ces.len() < 0x1_0000_0000_0000_0000,
    ensures
        parse_instance(canon_bytes(raw)) == Some(
            (
                problem_id_bytes(),
                canon_node_count(raw) as NumNodes,
                canon_edges(raw).len() as NumEdges,
                canon_edges(raw),
            ),
        ),
        canon_ok(canon_bytes(raw), true),
        canon_ok(canon_bytes(raw), false),
        canon_edges(parse_instance(canon_bytes(raw))->Some_0.3) == canon_edges(raw),
        canon_bytes(parse_instance(canon_bytes(raw))->Some_0.3) == canon_bytes(raw),
        canon_node_count(parse_instance(canon_bytes(raw))->Some_0.3) == canon_node_count(raw),
        sha256_of(canon_bytes(parse_instance(canon_bytes(raw))->Some_0.3)) == sha256_of(
            canon_bytes(raw),
        ),
{
    let bound = node_max(ces) as int + 1;
    lemma_sorted_seq_of_witness(ces);
    assert(sorted_seq_of(edge_set_of(raw)) == ces);
    let out = canon_edges(raw);
    assert(out == relabel_all(ces));
    lemma_node_max_props(ces);
    assert forall|i: int| 0 <= i < ces.len() implies (#[trigger] ces[i]).1 < bound by {
        assert(crate::graph::max_node_spec(ces[i]) <= node_max(ces));
    }
    crate::canonical::lemma_relabel_shape(ces, bound);
    let ncount = rank_up_to(ces, bound);
    assert(node_max(out) + 1 == ncount);
    assert(canon_node_count(raw) == ncount);
    assert(ncount <= bound);
    // parse the canonical bytes back
    assert(!problem_id_bytes().contains(SPACE)) by {
        if problem_id_bytes().contains(SPACE) {
            let i = choose|i: int| 0 <= i < 2 && problem_id_bytes()[i] == SPACE;
        }
    }
    assert(!problem_id_bytes().contains(NEWLINE)) by {
        if problem_id_bytes().contains(NEWLINE) {
            let i = choose|i: int| 0 <= i < 2 && problem_id_bytes()[i] == NEWLINE;
        }
    }
    lemma_node_max_props(out);
    assert forall|i: int| 0 <= i < out.len() implies (#[trigger] out[i]).0 < ncount && out[i].1
        < ncount by {
        assert(out[i].0 < out[i].1);
        assert(crate::graph::max_node_spec(out[i]) <= node_max(out));
    }
    lemma_parse_write(problem_id_bytes(), out, ncount as nat, out.len() as nat);
    assert(canon_bytes(raw) == write_bytes(
        problem_id_bytes(),
        out,
        0,
        ncount as nat,
        out.len() as nat,
    ));
    assert(parse_instance(canon_bytes(raw)) == Some(
        (problem_id_bytes(), ncount as NumNodes, out.len() as NumEdges, out),
    ));
    // the re-parsed document canonicalizes to itself
    lemma_edge_set_of_normal(out);
    assert(edge_set_of(out) == out.to_set());
    lemma_sorted_seq_of_witness(out);
    assert(sorted_seq_of(edge_set_of(out)) == out);
    assert forall|v: u32| v < ncount implies seq_uses(out, v) by {
        lemma_rank_surjective(ces, bound, v as int);
        let u = choose|u: u32|
            u < bound && #[trigger] seq_uses(ces, u) && rank_up_to(ces, u as int) == v as int;
        let k = choose|k: int| 0 <= k < ces.len() && ((#[trigger] ces[k]).0 == u || ces[k].1 == u);
        assert(out[k] == relabel_edge(ces, ces[k]));
        if ces[k].0 == u {
            assert(out[k].0 == v);
        } else {
            assert(out[k].1 == v);
        }
        assert(out[k].0 == v || out[k].1 == v);
    }
    assert forall|i: int| 0 <= i < out.len() implies #[trigger] relabel_edge(out, out[i])
        == out[i] by {
        assert(out[i].0 < ncount && out[i].1 < ncount);
        lemma_rank_identity(out, out[i].0 as int);
        lemma_rank_identity(out, out[i].1 as int);
    }
    assert(relabel_all(out) =~= out);
    assert(canon_edges(out) == out);
    assert(canon_node_count(out) == ncount);
    assert(canon_bytes(out) == canon_bytes(raw));
    // the canonicalizer accepts its own output
    assert(edge_set_of(out).contains(out[0])) by {
        assert(out.to_set().contains(out[0]));
    }
    assert(edge_set_of(out) != Set::<Edge>::empty());
    assert(sorted_seq_of(edge_set_of(out)).len() == out.len());
}

} // verus!
