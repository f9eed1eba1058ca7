//! Reader for the PACE text format: comment lines `c …`, a header
//! `p <problem-id> <n> <m>`, then one 1-indexed edge `u v` per line.
//! Edges are emitted zero-based.
use vstd::prelude::*;

use crate::err::{CoreError, ErrorKind};
use crate::graph::{Edge, NumEdges, NumNodes};
use crate::text::{
    dec_value, first_idx_of, parse_u32, parse_u64, split_lines, split_lines_exec, split_ws,
    split_ws_exec, valid_number,
};

verus! {

/// A comment line starts with `c`.
pub open spec fn is_comment(line: Seq<u8>) -> bool {
    line.len() > 0 && line[0] == 99
}

/// What a header line means: exactly the tokens `p`, an id, `n`, `m`,
/// where the first token begins with `p`.
pub open spec fn parse_header_line(line: Seq<u8>) -> Option<(Seq<u8>, NumNodes, NumEdges)> {
    let toks = split_ws(line);
    if toks.len() == 4 && toks[0].len() > 0 && toks[0][0] == 112 && valid_number(
        toks[2],
        0x1_0000_0000,
    ) && valid_number(toks[3], 0x1_0000_0000_0000_0000) {
        Some((toks[1], dec_value(toks[2]) as NumNodes, dec_value(toks[3]) as NumEdges))
    } else {
        None
    }
}

/// What an edge line means: two leading numeric tokens, both in `[1, n]`,
/// emitted zero-based.
pub open spec fn parse_edge_line_spec(line: Seq<u8>, n: NumNodes) -> Option<Edge> {
    let toks = split_ws(line);
    if toks.len() >= 2 && valid_number(toks[0], 0x1_0000_0000) && valid_number(
        toks[1],
        0x1_0000_0000,
    ) {
        let u = dec_value(toks[0]);
        let v = dec_value(toks[1]);
        if 1 <= u <= n && 1 <= v <= n {
            Some(Edge((u - 1) as u32, (v - 1) as u32))
        } else {
            None
        }
    } else {
        None
    }
}

/// Index of the first non-comment line, or the length when all are comments.
pub open spec fn first_noncomment(lines: Seq<Seq<u8>>) -> int
    decreases lines.len(),
{
    if lines.len() == 0 {
        0
    } else if !is_comment(lines[0]) {
        0
    } else {
        1 + first_noncomment(lines.drop_first())
    }
}

pub proof fn lemma_first_noncomment(lines: Seq<Seq<u8>>)
    ensures
        0 <= first_noncomment(lines) <= lines.len(),
        forall|i: int| 0 <= i < first_noncomment(lines) ==> is_comment(#[trigger] lines[i]),
        first_noncomment(lines) < lines.len() ==> !is_comment(lines[first_noncomment(lines)]),
    decreases lines.len(),
{
    if lines.len() > 0 && is_comment(lines[0]) {
        lemma_first_noncomment(lines.drop_first());
        assert forall|i: int| 0 <= i < first_noncomment(lines) implies is_comment(
            #[trigger] lines[i],
        ) by {
            if i > 0 {
                assert(lines.drop_first()[i - 1] == lines[i]);
            }
        }
    }
}

/// The header of a PACE document, when there is one.
pub open spec fn header_of(input: Seq<u8>) -> Option<(Seq<u8>, NumNodes, NumEdges)> {
    let lines = split_lines(input);
    let i = first_noncomment(lines);
    if i < lines.len() {
        parse_header_line(lines[i])
    } else {
        None
    }
}

/// The lines after the header line.
pub open spec fn body_lines(input: Seq<u8>) -> Seq<Seq<u8>> {
    let lines = split_lines(input);
    lines.subrange(first_noncomment(lines) + 1, lines.len() as int)
}

/// The edges encoded by a line list: comments skipped, every other line a
/// well-formed edge, or nothing.
pub open spec fn parse_edges(lines: Seq<Seq<u8>>, n: NumNodes) -> Option<Seq<Edge>>
    decreases lines.len(),
{
    if lines.len() == 0 {
        Some(seq![])
    } else if is_comment(lines[0]) {
        parse_edges(lines.drop_first(), n)
    } else {
        match parse_edge_line_spec(lines[0], n) {
            Option::None => Option::None,
            Option::Some(e) => match parse_edges(lines.drop_first(), n) {
                Option::None => Option::None,
                Option::Some(rest) => Option::Some(seq![e] + rest),
            },
        }
    }
}

/// `Some(seq![e] + s)` when `o == Some(s)`; `None` otherwise.
pub open spec fn opt_cons(e: Edge, o: Option<Seq<Edge>>) -> Option<Seq<Edge>> {
    match o {
        Option::None => Option::None,
        Option::Some(s) => Option::Some(seq![e] + s),
    }
}

/// A whole document: header plus edge list.
pub open spec fn parse_instance(input: Seq<u8>) -> Option<(Seq<u8>, NumNodes, NumEdges, Seq<Edge>)> {
    match header_of(input) {
        Option::None => Option::None,
        Option::Some((id, n, m)) => match parse_edges(body_lines(input), n) {
            Option::None => Option::None,
            Option::Some(es) => Option::Some((id, n, m, es)),
        },
    }
}

/// Reads a PACE document held in memory: the header eagerly, the edges one
/// at a time through [`PaceReader::next_edge`].
pub struct PaceReader {
    lines: Vec<Vec<u8>>,
    pos: usize,
    problem_id: Vec<u8>,
    number_of_nodes: NumNodes,
    number_of_edges: NumEdges,
}

impl PaceReader {
    pub closed spec fn wf(&self) -> bool {
        self.pos <= self.lines@.len()
    }

    /// The lines not yet consumed.
    pub closed spec fn rest(&self) -> Seq<Seq<u8>> {
        self.lines.deep_view().subrange(self.pos as int, self.lines@.len() as int)
    }

    pub closed spec fn id_spec(&self) -> Seq<u8> {
        self.problem_id@
    }

    pub closed spec fn n_spec(&self) -> NumNodes {
        self.number_of_nodes
    }

    pub closed spec fn m_spec(&self) -> NumEdges {
        self.number_of_edges
    }

    /// Parses the header; fails exactly when the document has none.
    pub fn try_new(data: &[u8]) -> (r: Result<PaceReader, CoreError>)
        ensures
            r matches Ok(pr) ==> {
                &&& pr.wf()
                &&& header_of(data@) == Some((pr.id_spec(), pr.n_spec(), pr.m_spec()))
                &&& pr.rest() == body_lines(data@)
            },
            r is Err ==> header_of(data@) is None,
            r matches Err(e) ==> e.kind == ErrorKind::BadInput,
    {
        let lines = split_lines_exec(data);
        let ghost glines = lines.deep_view();
        proof {
            lemma_first_noncomment(glines);
        }
        let mut pos: usize = 0;
        while pos < lines.len() && lines[pos].len() > 0 && lines[pos][0] == 99
            invariant
                0 <= pos <= glines.len(),
                glines == lines.deep_view(),
                forall|i: int| 0 <= i < pos ==> is_comment(#[trigger] glines[i]),
            decreases glines.len() - pos,
        {
            proof {
                assert(is_comment(glines[pos as int]));
            }
            pos = pos + 1;
        }
        proof {
            if pos < glines.len() {
                assert(!is_comment(glines[pos as int]));
            }
            assert(first_noncomment(glines) == pos as int);
        }
        if pos == lines.len() {
            return Err(CoreError::bad_input("no header found"));
        }
        let toks = split_ws_exec(&lines[pos]);
        let ghost gtoks = split_ws(glines[pos as int]);
        proof {
            assert(lines@[pos as int]@ =~= glines[pos as int]);
            assert(toks.deep_view() == gtoks);
        }
        if toks.len() != 4 {
            return Err(CoreError::bad_input("header must hold exactly four tokens"));
        }
        proof {
            assert(toks[0]@ == gtoks[0]);
            assert(toks[1]@ == gtoks[1]);
            assert(toks[2]@ == gtoks[2]);
            assert(toks[3]@ == gtoks[3]);
        }
        if toks[0].len() == 0 || toks[0][0] != 112 {
            return Err(CoreError::bad_input("header line must start with p"));
        }
        let n = match parse_u32(&toks[2]) {
            Some(v) => v,
            None => {
                return Err(CoreError::bad_input("cannot parse the number of nodes"));
            },
        };
        let m = match parse_u64(&toks[3]) {
            Some(v) => v,
            None => {
                return Err(CoreError::bad_input("cannot parse the number of edges"));
            },
        };
        let problem_id = toks[1].clone();
        proof {
            assert(problem_id@ == gtoks[1]);
        }
        let reader = PaceReader {
            lines,
            pos: pos + 1,
            problem_id,
            number_of_nodes: n,
            number_of_edges: m,
        };
        proof {
            assert(reader.rest() =~~= body_lines(data@));
        }
        Ok(reader)
    }

    pub fn number_of_nodes(&self) -> (r: NumNodes)
        ensures
            r == self.n_spec(),
    {
        self.number_of_nodes
    }

    pub fn number_of_edges(&self) -> (r: NumEdges)
        ensures
            r == self.m_spec(),
    {
        self.number_of_edges
    }

    pub fn problem_id(&self) -> (r: &Vec<u8>)
        ensures
            r@ == self.id_spec(),
    {
        &self.problem_id
    }

    /// The next edge of the document, `Ok(None)` at its end, an error on the
    /// first malformed or out-of-range edge line.
    pub fn next_edge(&mut self) -> (r: Result<Option<Edge>, CoreError>)
        requires
            old(self).wf(),
        ensures
            final(self).wf(),
            final(self).n_spec() == old(self).n_spec(),
            final(self).m_spec() == old(self).m_spec(),
            final(self).id_spec() == old(self).id_spec(),
            match r {
                Ok(Some(e)) => parse_edges(old(self).rest(), old(self).n_spec()) == opt_cons(
                    e,
                    parse_edges(final(self).rest(), old(self).n_spec()),
                ) && e.0 < old(self).n_spec() && e.1 < old(self).n_spec() && final(self).rest().len()
                    < old(self).rest().len() && first_noncomment(old(self).rest()) < old(
                    self,
                ).rest().len() && parse_edge_line_spec(
                    old(self).rest()[first_noncomment(old(self).rest())],
                    old(self).n_spec(),
                ) == Some(e) && final(self).rest() == old(self).rest().subrange(
                    first_noncomment(old(self).rest()) + 1,
                    old(self).rest().len() as int,
                ),
                Ok(None) => parse_edges(old(self).rest(), old(self).n_spec()) == Some(
                    Seq::<Edge>::empty(),
                ) && final(self).rest().len() == 0,
                Err(e) => parse_edges(old(self).rest(), old(self).n_spec()) is None && e.kind
                    == ErrorKind::BadInput && first_noncomment(old(self).rest()) < old(
                    self,
                ).rest().len() && parse_edge_line_spec(
                    old(self).rest()[first_noncomment(old(self).rest())],
                    old(self).n_spec(),
                ) is None && final(self).rest() == old(self).rest().subrange(
                    first_noncomment(old(self).rest()),
                    old(self).rest().len() as int,
                ),
            },
    {
        loop
            invariant
                self.wf(),
                self.n_spec() == old(self).n_spec(),
                self.m_spec() == old(self).m_spec(),
                self.id_spec() == old(self).id_spec(),
                self.lines@ == old(self).lines@,
                self.lines.deep_view() == old(self).lines.deep_view(),
                old(self).pos <= self.pos,
                self.rest() == old(self).rest().subrange(
                    self.pos - old(self).pos,
                    old(self).rest().len() as int,
                ),
                forall|j: int|
                    0 <= j < self.pos - old(self).pos ==> is_comment(#[trigger] old(self).rest()[j]),
                parse_edges(old(self).rest(), self.n_spec()) == parse_edges(
                    self.rest(),
                    self.n_spec(),
                ),
            decreases self.lines@.len() - self.pos,
        {
            if self.pos == self.lines.len() {
                proof {
                    assert(self.rest() =~~= Seq::<Seq<u8>>::empty());
                }
                return Ok(None);
            }
            let ghost cur_rest = self.rest();
            proof {
                assert(cur_rest[0] == self.lines.deep_view()[self.pos as int]);
                assert(cur_rest.drop_first() =~~= self.lines.deep_view().subrange(
                    self.pos as int + 1,
                    self.lines@.len() as int,
                ));
            }
            let ghost delta = self.pos - old(self).pos;
            let line_is_comment = self.lines[self.pos].len() > 0 && self.lines[self.pos][0] == 99;
            if line_is_comment {
                proof {
                    assert(is_comment(cur_rest[0]));
                    assert(old(self).rest()[delta] == cur_rest[0]);
                }
                self.pos = self.pos + 1;
                proof {
                    assert(self.rest() =~~= old(self).rest().subrange(
                        self.pos - old(self).pos,
                        old(self).rest().len() as int,
                    ));
                }
                continue ;
            }
            proof {
                assert(!is_comment(cur_rest[0]));
                assert(old(self).rest()[delta] == cur_rest[0]);
                lemma_first_noncomment(old(self).rest());
                assert(first_noncomment(old(self).rest()) == delta) by {
                    if first_noncomment(old(self).rest()) < delta {
                        assert(is_comment(old(self).rest()[first_noncomment(old(self).rest())]));
                    }
                }
            }
            let toks = split_ws_exec(&self.lines[self.pos]);
            let ghost gtoks = split_ws(cur_rest[0]);
            proof {
                assert(self.lines@[self.pos as int]@ =~= self.lines.deep_view()[self.pos as int]);
                assert(toks.deep_view() == gtoks);
            }
            if toks.len() < 2 {
                proof {
                    assert(self.rest() =~~= old(self).rest().subrange(
                        first_noncomment(old(self).rest()),
                        old(self).rest().len() as int,
                    ));
                }
                return Err(CoreError::bad_input("edge line holds fewer than two tokens"));
            }
            proof {
                assert(toks[0]@ == gtoks[0]);
                assert(toks[1]@ == gtoks[1]);
            }
            let u = match parse_u32(&toks[0]) {
                Some(v) => v,
                None => {
                    proof {
                        assert(self.rest() =~~= old(self).rest().subrange(
                            first_noncomment(old(self).rest()),
                            old(self).rest().len() as int,
                        ));
                    }
                    return Err(CoreError::bad_input("cannot parse the source node"));
                },
            };
            let v = match parse_u32(&toks[1]) {
                Some(v) => v,
                None => {
                    proof {
                        assert(self.rest() =~~= old(self).rest().subrange(
                            first_noncomment(old(self).rest()),
                            old(self).rest().len() as int,
                        ));
                    }
                    return Err(CoreError::bad_input("cannot parse the target node"));
                },
            };
            let n = self.number_of_nodes;
            if u < 1 || u > n || v < 1 || v > n {
                proof {
                    assert(self.rest() =~~= old(self).rest().subrange(
                        first_noncomment(old(self).rest()),
                        old(self).rest().len() as int,
                    ));
                }
                return Err(CoreError::bad_input("edge endpoint out of the header range"));
            }
            let e = Edge(u - 1, v - 1);
            self.pos = self.pos + 1;
            proof {
                assert(self.rest() =~~= old(self).rest().subrange(
                    first_noncomment(old(self).rest()) + 1,
                    old(self).rest().len() as int,
                ));
            }
            return Ok(Some(e));
        }
    }
}

} // verus!
