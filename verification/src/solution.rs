//! Dominating-set solutions: the text reader and writer, the verifier, and
//! the order-insensitive content digest.
use vstd::prelude::*;

use sha1::Digest;

use vstd::relations::sorted_by;
use vstd::seq_lib::group_to_multiset_ensures;

use crate::err::{CoreError, ErrorKind};
use crate::graph::{Edge, NumNodes, Node};
use crate::text::{
    dec_repr, dec_value, le4, parse_u32, push_le4, split_lines, split_lines_exec, u64_to_dec,
    valid_number, NEWLINE, SPACE,
};

verus! {

/// The digest that sha1's `Sha1` computes; a function of the bytes alone.
pub uninterp spec fn sha1_of(data: Seq<u8>) -> Seq<u8>;

/// Relies on sha1's `Sha1`: a 20-byte digest computed from the input bytes
/// alone.
#[verifier::external_body]
fn sha1(data: &Vec<u8>) -> (r: Vec<u8>)
    ensures
        r@ == sha1_of(data@),
        r@.len() == 20,
{
    sha1::Sha1::digest(data.as_slice()).to_vec()
}

/// The node order as a first-class relation.
pub open spec fn node_leq() -> spec_fn(u32, u32) -> bool {
    |a: u32, b: u32| a <= b
}

/// Strictly increasing node ids: sorted and duplicate-free.
pub open spec fn strictly_increasing(s: Seq<u32>) -> bool {
    forall|i: int, j: int| 0 <= i < j < s.len() ==> #[trigger] s[i] < #[trigger] s[j]
}

/// Two strictly increasing sequences with the same element set are equal.
pub proof fn lemma_strictly_increasing_unique(x: Seq<u32>, y: Seq<u32>)
    requires
        strictly_increasing(x),
        strictly_increasing(y),
        x.to_set() == y.to_set(),
    ensures
        x == y,
    decreases x.len(),
{
    if x.len() == 0 {
        if y.len() > 0 {
            assert(y.to_set().contains(y[0]));
            assert(x.to_set().contains(y[0]));
        }
        assert(x =~= y);
    } else if y.len() == 0 {
        assert(x.to_set().contains(x[0]));
        assert(y.to_set().contains(x[0]));
    } else {
        assert(x.to_set().contains(x[0]));
        assert(y.to_set().contains(y[0]));
        assert(x.contains(y[0]));
        assert(y.contains(x[0]));
        let i = choose|i: int| 0 <= i < x.len() && x[i] == y[0];
        let j = choose|j: int| 0 <= j < y.len() && y[j] == x[0];
        if i > 0 {
            assert(x[0] < x[i]);
        }
        if j > 0 {
            assert(y[0] < y[j]);
        }
        assert(x[0] == y[0]);
        let xr = x.drop_first();
        let yr = y.drop_first();
        assert forall|e: u32| xr.to_set().contains(e) implies yr.to_set().contains(e) by {
            let k = choose|k: int| 0 <= k < xr.len() && xr[k] == e;
            assert(x[k + 1] == e);
            assert(x[0] < e);
            assert(x.to_set().contains(e)) by {
                assert(x[k + 1] == e);
            }
            assert(y.contains(e));
            let l = choose|l: int| 0 <= l < y.len() && y[l] == e;
            assert(l != 0);
            assert(yr[l - 1] == e);
        }
        assert forall|e: u32| yr.to_set().contains(e) implies xr.to_set().contains(e) by {
            let k = choose|k: int| 0 <= k < yr.len() && yr[k] == e;
            assert(y[k + 1] == e);
            assert(y[0] < e);
            assert(y.to_set().contains(e)) by {
                assert(y[k + 1] == e);
            }
            assert(x.contains(e));
            let l = choose|l: int| 0 <= l < x.len() && x[l] == e;
            assert(l != 0);
            assert(xr[l - 1] == e);
        }
        assert(xr.to_set() =~= yr.to_set());
        assert(strictly_increasing(xr)) by {
            assert forall|p: int, q: int| 0 <= p < q < xr.len() implies #[trigger] xr[p]
                < #[trigger] xr[q] by {
                assert(x[p + 1] == xr[p] && x[q + 1] == xr[q]);
            }
        }
        assert(strictly_increasing(yr)) by {
            assert forall|p: int, q: int| 0 <= p < q < yr.len() implies #[trigger] yr[p]
                < #[trigger] yr[q] by {
                assert(y[p + 1] == yr[p] && y[q + 1] == yr[q]);
            }
        }
        lemma_strictly_increasing_unique(xr, yr);
        assert(x =~= y) by {
            assert forall|k: int| 0 <= k < x.len() implies x[k] == y[k] by {
                if k > 0 {
                    assert(xr[k - 1] == yr[k - 1]);
                }
            }
        }
    }
}

/// The strictly increasing sequence holding exactly the nodes of `s`.
pub open spec fn sorted_nodes_of(s: Set<u32>) -> Seq<u32> {
    choose|r: Seq<u32>| strictly_increasing(r) && r.to_set() == s
}

pub proof fn lemma_sorted_nodes_of_witness(r: Seq<u32>)
    requires
        strictly_increasing(r),
    ensures
        sorted_nodes_of(r.to_set()) == r,
{
    let s = r.to_set();
    assert(strictly_increasing(r) && r.to_set() == s);
    let w = sorted_nodes_of(s);
    assert(strictly_increasing(w) && w.to_set() == s);
    lemma_strictly_increasing_unique(w, r);
}

/// Inserting into a node sequence adds one occurrence to its multiset.
proof fn lemma_node_insert_to_multiset(s: Seq<u32>, i: int, a: u32)
    requires
        0 <= i <= s.len(),
    ensures
        s.insert(i, a).to_multiset() == s.to_multiset().insert(a),
{
    broadcast use group_to_multiset_ensures;

    let p = s.subrange(0, i);
    let q = s.subrange(i, s.len() as int);
    assert(s =~= p + q);
    vstd::seq_lib::lemma_multiset_commutative(p, q);
    vstd::seq_lib::lemma_multiset_commutative(p.push(a), q);
    assert(p.push(a).to_multiset() =~= p.to_multiset().insert(a));
    assert(s.insert(i, a).to_multiset() =~= s.to_multiset().insert(a));
}

/// Sorts node ids; the multiset of ids is unchanged.
pub fn sort_nodes(input: Vec<u32>) -> (r: Vec<u32>)
    ensures
        sorted_by(r@, node_leq()),
        r@.to_multiset() == input@.to_multiset(),
        r@.len() == input@.len(),
{
    broadcast use group_to_multiset_ensures;

    let mut out: Vec<u32> = Vec::new();
    let mut i: usize = 0;
    proof {
        assert(input@.subrange(0, 0) =~= Seq::<u32>::empty());
        assert(out@.to_multiset() =~= input@.subrange(0, 0).to_multiset());
    }
    while i < input.len()
        invariant
            0 <= i <= input@.len(),
            sorted_by(out@, node_leq()),
            out@.to_multiset() == input@.subrange(0, i as int).to_multiset(),
            out@.len() == i,
        decreases input@.len() - i,
    {
        let x = input[i];
        let mut j: usize = 0;
        while j < out.len() && out[j] <= x
            invariant
                0 <= j <= out@.len(),
                forall|k: int| 0 <= k < j ==> #[trigger] out@[k] <= x,
            decreases out@.len() - j,
        {
            j = j + 1;
        }
        let ghost old_out = out@;
        out.insert(j, x);
        proof {
            let leq = node_leq();
            old_out.insert_ensures(j as int, x);
            assert forall|p: int, q: int| 0 <= p < q < out@.len() implies leq(out@[p], out@[q]) by {
                if q < j {
                    assert(out@[p] == old_out[p] && out@[q] == old_out[q]);
                    assert(leq(old_out[p], old_out[q]));
                } else if q == j {
                    assert(out@[q] == x && out@[p] == old_out[p]);
                } else if p < j {
                    assert(out@[p] == old_out[p] && out@[q] == old_out[q - 1]);
                    assert(old_out[p] <= x);
                    if j as int != q - 1 {
                        assert(leq(old_out[j as int], old_out[q - 1]));
                    }
                    assert(!(old_out[j as int] <= x));
                } else if p == j {
                    assert(out@[p] == x && out@[q] == old_out[q - 1]);
                    assert(!(old_out[j as int] <= x));
                    if j as int != q - 1 {
                        assert(leq(old_out[j as int], old_out[q - 1]));
                    }
                } else {
                    assert(out@[p] == old_out[p - 1] && out@[q] == old_out[q - 1]);
                    assert(leq(old_out[p - 1], old_out[q - 1]));
                }
            }
            lemma_node_insert_to_multiset(old_out, j as int, x);
            let pre = input@.subrange(0, i as int);
            let post = input@.subrange(0, i as int + 1);
            assert(post.drop_last() =~= pre);
            assert(post =~= pre.push(x));
            vstd::seq_lib::to_multiset_build(pre, x);
        }
        i = i + 1;
    }
    proof {
        assert(input@.subrange(0, i as int) =~= input@);
    }
    out
}

/// Whether a sorted node list is strictly increasing, i.e. duplicate-free.
fn check_strictly_increasing(v: &Vec<u32>) -> (r: bool)
    requires
        sorted_by(v@, node_leq()),
    ensures
        r == strictly_increasing(v@),
{
    let mut i: usize = 1;
    if v.len() == 0 {
        return true;
    }
    while i < v.len()
        invariant
            1 <= i <= v@.len(),
            sorted_by(v@, node_leq()),
            forall|p: int, q: int| 0 <= p < q < i ==> #[trigger] v@[p] < #[trigger] v@[q],
        decreases v@.len() - i,
    {
        if v[i - 1] == v[i] {
            proof {
                assert(!(v@[i as int - 1] < v@[i as int]));
            }
            return false;
        }
        proof {
            let leq = node_leq();
            assert forall|p: int, q: int| 0 <= p < q < i + 1 implies #[trigger] v@[p]
                < #[trigger] v@[q] by {
                if q == i {
                    assert(leq(v@[p], v@[i as int - 1]) || p == i - 1);
                    assert(leq(v@[i as int - 1], v@[i as int]));
                }
            }
        }
        i = i + 1;
    }
    true
}

/// Drops leading spaces.
pub open spec fn trim_front(s: Seq<u8>) -> Seq<u8>
    decreases s.len(),
{
    if s.len() > 0 && s[0] == SPACE {
        trim_front(s.drop_first())
    } else {
        s
    }
}

/// Drops trailing spaces.
pub open spec fn trim_back(s: Seq<u8>) -> Seq<u8>
    decreases s.len(),
{
    if s.len() > 0 && s.last() == SPACE {
        trim_back(s.drop_last())
    } else {
        s
    }
}

/// The line with surrounding spaces removed.
pub open spec fn trim_spaces(s: Seq<u8>) -> Seq<u8> {
    trim_front(trim_back(s))
}

proof fn lemma_trim_front_exact(s: Seq<u8>, k: int)
    requires
        0 <= k <= s.len(),
        forall|i: int| 0 <= i < k ==> s[i] == SPACE,
        k < s.len() ==> s[k] != SPACE,
    ensures
        trim_front(s) == s.subrange(k, s.len() as int),
    decreases k,
{
    if k == 0 {
        if s.len() > 0 && s[0] == SPACE {
            assert(false);
        }
        assert(s.subrange(0, s.len() as int) =~= s);
    } else {
        assert(s[0] == SPACE);
        let d = s.drop_first();
        assert forall|i: int| 0 <= i < k - 1 implies d[i] == SPACE by {
            assert(d[i] == s[i + 1]);
        }
        if k - 1 < d.len() {
            assert(d[k - 1] == s[k]);
        }
        lemma_trim_front_exact(d, k - 1);
        assert(d.subrange(k - 1, d.len() as int) =~= s.subrange(k, s.len() as int));
    }
}

proof fn lemma_trim_back_exact(s: Seq<u8>, h: int)
    requires
        0 <= h <= s.len(),
        forall|i: int| h <= i < s.len() ==> s[i] == SPACE,
        h > 0 ==> s[h - 1] != SPACE,
    ensures
        trim_back(s) == s.subrange(0, h),
    decreases s.len() - h,
{
    if h == s.len() {
        if s.len() > 0 && s.last() == SPACE {
            assert(false);
        }
        assert(s.subrange(0, s.len() as int) =~= s);
    } else {
        assert(s.last() == SPACE);
        let d = s.drop_last();
        assert forall|i: int| h <= i < d.len() implies d[i] == SPACE by {
            assert(d[i] == s[i]);
        }
        lemma_trim_back_exact(d, h);
        assert(d.subrange(0, h) =~= s.subrange(0, h));
    }
}

/// Removes leading and trailing spaces from a line.
pub fn trim_spaces_exec(s: &Vec<u8>) -> (r: Vec<u8>)
    ensures
        r@ == trim_spaces(s@),
{
    let mut hi: usize = s.len();
    while hi > 0 && s[hi - 1] == SPACE
        invariant
            0 <= hi <= s@.len(),
            forall|i: int| hi <= i < s@.len() ==> s@[i] == SPACE,
        decreases hi,
    {
        hi = hi - 1;
    }
    proof {
        lemma_trim_back_exact(s@, hi as int);
    }
    let ghost tb = s@.subrange(0, hi as int);
    let mut lo: usize = 0;
    while lo < hi && s[lo] == SPACE
        invariant
            0 <= lo <= hi <= s@.len(),
            tb == s@.subrange(0, hi as int),
            forall|i: int| 0 <= i < lo ==> s@[i] == SPACE,
        decreases hi - lo,
    {
        lo = lo + 1;
    }
    proof {
        assert forall|i: int| 0 <= i < lo implies tb[i] == SPACE by {
            assert(tb[i] == s@[i]);
        }
        if (lo as int) < tb.len() {
            assert(tb[lo as int] == s@[lo as int]);
        }
        lemma_trim_front_exact(tb, lo as int);
    }
    let mut out: Vec<u8> = Vec::new();
    let mut i: usize = lo;
    while i < hi
        invariant
            lo <= i <= hi <= s@.len(),
            out@ == s@.subrange(lo as int, i as int),
        decreases hi - i,
    {
        out.push(s[i]);
        proof {
            assert(out@ =~= s@.subrange(lo as int, i as int + 1));
        }
        i = i + 1;
    }
    proof {
        assert(tb.subrange(lo as int, tb.len() as int) =~= s@.subrange(lo as int, hi as int));
    }
    out
}

/// A line the solution reader skips: blank, or a comment after trimming.
pub open spec fn sol_skip(line: Seq<u8>) -> bool {
    trim_spaces(line).len() == 0 || trim_spaces(line)[0] == 99
}

/// The numeric value of a solution line, when it is one numeral.
pub open spec fn sol_line_val(line: Seq<u8>) -> Option<u32> {
    if valid_number(trim_spaces(line), 0x1_0000_0000) {
        Some(dec_value(trim_spaces(line)) as u32)
    } else {
        None
    }
}

/// The zero-based node ids of the solution body: skip lines dropped, every
/// other line one 1-indexed numeral, or nothing.
pub open spec fn parse_sol_nodes(lines: Seq<Seq<u8>>) -> Option<Seq<Node>>
    decreases lines.len(),
{
    if lines.len() == 0 {
        Some(seq![])
    } else if sol_skip(lines[0]) {
        parse_sol_nodes(lines.drop_first())
    } else {
        match sol_line_val(lines[0]) {
            Option::None => Option::None,
            Option::Some(v) => {
                if v >= 1 {
                    match parse_sol_nodes(lines.drop_first()) {
                        Option::None => Option::None,
                        Option::Some(rest) => Option::Some(seq![(v - 1) as u32] + rest),
                    }
                } else {
                    Option::None
                }
            },
        }
    }
}

/// Index of the first line the reader does not skip.
pub open spec fn first_sol_line(lines: Seq<Seq<u8>>) -> int
    decreases lines.len(),
{
    if lines.len() == 0 {
        0
    } else if !sol_skip(lines[0]) {
        0
    } else {
        1 + first_sol_line(lines.drop_first())
    }
}

pub proof fn lemma_first_sol_line(lines: Seq<Seq<u8>>)
    ensures
        0 <= first_sol_line(lines) <= lines.len(),
        forall|i: int| 0 <= i < first_sol_line(lines) ==> sol_skip(#[trigger] lines[i]),
        first_sol_line(lines) < lines.len() ==> !sol_skip(lines[first_sol_line(lines)]),
    decreases lines.len(),
{
    if lines.len() > 0 && sol_skip(lines[0]) {
        lemma_first_sol_line(lines.drop_first());
        assert forall|i: int| 0 <= i < first_sol_line(lines) implies sol_skip(
            #[trigger] lines[i],
        ) by {
            if i > 0 {
                assert(lines.drop_first()[i - 1] == lines[i]);
            }
        }
    }
}

/// The declared size of a solution document, when it has one.
pub open spec fn sol_size_of(input: Seq<u8>) -> Option<u32> {
    let lines = split_lines(input);
    let i = first_sol_line(lines);
    if i < lines.len() {
        sol_line_val(lines[i])
    } else {
        None
    }
}

/// The lines after the size line.
pub open spec fn sol_body_lines(input: Seq<u8>) -> Seq<Seq<u8>> {
    let lines = split_lines(input);
    lines.subrange(first_sol_line(lines) + 1, lines.len() as int)
}

/// Reads a solution document held in memory: the size line eagerly, the
/// node lines one at a time.
pub struct SolutionReader {
    lines: Vec<Vec<u8>>,
    pos: usize,
    solution_size: NumNodes,
}

impl SolutionReader {
    pub closed spec fn wf(&self) -> bool {
        self.pos <= self.lines@.len()
    }

    pub closed spec fn rest(&self) -> Seq<Seq<u8>> {
        self.lines.deep_view().subrange(self.pos as int, self.lines@.len() as int)
    }

    pub closed spec fn size_spec(&self) -> NumNodes {
        self.solution_size
    }

    /// Parses the size line; fails exactly when the document has none.
    pub fn try_new(data: &[u8]) -> (r: Result<SolutionReader, CoreError>)
        ensures
            r matches Ok(sr) ==> {
                &&& sr.wf()
                &&& sol_size_of(data@) == Some(sr.size_spec())
                &&& sr.rest() == sol_body_lines(data@)
            },
            r is Err ==> sol_size_of(data@) is None,
            r matches Err(e) ==> e.kind == ErrorKind::BadInput,
    {
        let lines = split_lines_exec(data);
        let ghost glines = lines.deep_view();
        proof {
            lemma_first_sol_line(glines);
        }
        let mut pos: usize = 0;
        loop
            invariant
                0 <= pos <= glines.len(),
                glines == lines.deep_view(),
                forall|i: int| 0 <= i < pos ==> sol_skip(#[trigger] glines[i]),
            ensures
                0 <= pos <= glines.len(),
                forall|i: int| 0 <= i < pos ==> sol_skip(#[trigger] glines[i]),
                pos < glines.len() ==> !sol_skip(glines[pos as int]),
                pos == first_sol_line(glines) || (pos == glines.len() && first_sol_line(glines)
                    == pos),
            decreases glines.len() - pos,
        {
            if pos == lines.len() {
                proof {
                    lemma_first_sol_line(glines);
                }
                break ;
            }
            let t = trim_spaces_exec(&lines[pos]);
            proof {
                assert(lines@[pos as int]@ =~= glines[pos as int]);
            }
            if t.len() > 0 && t[0] != 99 {
                proof {
                    assert(!sol_skip(glines[pos as int]));
                    lemma_first_sol_line(glines);
                }
                break ;
            }
            proof {
                assert(sol_skip(glines[pos as int]));
            }
            pos = pos + 1;
        }
        if pos == lines.len() {
            return Err(CoreError::bad_input("no solution size found"));
        }
        let t = trim_spaces_exec(&lines[pos]);
        proof {
            assert(lines@[pos as int]@ =~= glines[pos as int]);
        }
        let size = match parse_u32(&t) {
            Some(v) => v,
            None => {
                return Err(CoreError::bad_input("cannot parse the solution size"));
            },
        };
        let reader = SolutionReader { lines, pos: pos + 1, solution_size: size };
        proof {
            assert(reader.rest() =~~= sol_body_lines(data@));
        }
        Ok(reader)
    }

    pub fn solution_size(&self) -> (r: NumNodes)
        ensures
            r == self.size_spec(),
    {
        self.solution_size
    }

    /// The next zero-based node id, `Ok(None)` at the end of the document,
    /// an error on a malformed or zero node line.
    pub fn next_node(&mut self) -> (r: Result<Option<Node>, CoreError>)
        requires
            old(self).wf(),
        ensures
            final(self).wf(),
            final(self).size_spec() == old(self).size_spec(),
            match r {
                Ok(Some(v)) => parse_sol_nodes(old(self).rest()) == (match parse_sol_nodes(
                    final(self).rest(),
                ) {
                    Option::Some(rest) => Option::Some(seq![v] + rest),
                    Option::None => Option::None::<Seq<Node>>,
                }) && final(self).rest().len() < old(self).rest().len() && first_sol_line(
                    old(self).rest(),
                ) < old(self).rest().len() && (sol_line_val(
                    old(self).rest()[first_sol_line(old(self).rest())],
                ) matches Some(w) && w >= 1 && v == w - 1) && final(self).rest() == old(
                    self,
                ).rest().subrange(
                    first_sol_line(old(self).rest()) + 1,
                    old(self).rest().len() as int,
                ),
                Ok(None) => parse_sol_nodes(old(self).rest()) == Some(Seq::<Node>::empty())
                    && final(self).rest().len() == 0,
                Err(e) => parse_sol_nodes(old(self).rest()) is None && e.kind
                    == ErrorKind::BadInput && first_sol_line(old(self).rest()) < old(
                    self,
                ).rest().len() && (sol_line_val(
                    old(self).rest()[first_sol_line(old(self).rest())],
                ) is None || sol_line_val(
                    old(self).rest()[first_sol_line(old(self).rest())],
                ) == Some(0u32)) && final(self).rest() == old(self).rest().subrange(
                    first_sol_line(old(self).rest()) + 1,
                    old(self).rest().len() as int,
                ),
            },
    {
        loop
            invariant
                self.wf(),
                self.size_spec() == old(self).size_spec(),
                self.lines@ == old(self).lines@,
                self.lines.deep_view() == old(self).lines.deep_view(),
                old(self).pos <= self.pos,
                self.rest() == old(self).rest().subrange(
                    self.pos - old(self).pos,
                    old(self).rest().len() as int,
                ),
                forall|j: int|
                    0 <= j < self.pos - old(self).pos ==> sol_skip(#[trigger] old(self).rest()[j]),
                parse_sol_nodes(old(self).rest()) == parse_sol_nodes(self.rest()),
            decreases self.lines@.len() - self.pos,
        {
            if self.pos == self.lines.len() {
                proof {
                    assert(self.rest() =~~= Seq::<Seq<u8>>::empty());
                }
                return Ok(None);
            }
            let ghost cur_rest = self.rest();
            proof {
                assert(cur_rest[0] == self.lines.deep_view()[self.pos as int]);
                assert(cur_rest.drop_first() =~~= self.lines.deep_view().subrange(
                    self.pos as int + 1,
                    self.lines@.len() as int,
                ));
            }
            let ghost delta = self.pos - old(self).pos;
            let t = trim_spaces_exec(&self.lines[self.pos]);
            proof {
                assert(self.lines@[self.pos as int]@ =~= self.lines.deep_view()[self.pos as int]);
            }
            if t.len() == 0 || t[0] == 99 {
                proof {
                    assert(sol_skip(cur_rest[0]));
                    assert(old(self).rest()[delta] == cur_rest[0]);
                }
                self.pos = self.pos + 1;
                proof {
                    assert(self.rest() =~~= old(self).rest().subrange(
                        self.pos - old(self).pos,
                        old(self).rest().len() as int,
                    ));
                }
                continue ;
            }
            proof {
                assert(!sol_skip(cur_rest[0]));
                assert(old(self).rest()[delta] == cur_rest[0]);
                lemma_first_sol_line(old(self).rest());
                assert(first_sol_line(old(self).rest()) == delta) by {
                    if first_sol_line(old(self).rest()) < delta {
                        assert(sol_skip(old(self).rest()[first_sol_line(old(self).rest())]));
                    }
                }
            }
            let v = match parse_u32(&t) {
                Some(v) => v,
                None => {
                    self.pos = self.pos + 1;
                    proof {
                        assert(sol_line_val(old(self).rest()[delta]) is None);
                        assert(self.rest() =~~= old(self).rest().subrange(
                            delta + 1,
                            old(self).rest().len() as int,
                        ));
                    }
                    return Err(CoreError::bad_input("non-numeric content in a node line"));
                },
            };
            if v == 0 {
                self.pos = self.pos + 1;
                proof {
                    assert(sol_line_val(old(self).rest()[delta]) == Some(0u32));
                    assert(self.rest() =~~= old(self).rest().subrange(
                        delta + 1,
                        old(self).rest().len() as int,
                    ));
                }
                return Err(CoreError::bad_input("node id smaller than 1"));
            }
            self.pos = self.pos + 1;
            proof {
                assert(sol_line_val(old(self).rest()[delta]) == Some(v));
                assert(self.rest() =~~= old(self).rest().subrange(
                    delta + 1,
                    old(self).rest().len() as int,
                ));
            }
            return Ok(Some(v - 1));
        }
    }
}

/// Removes adjacent duplicates from a sorted node list.
pub fn dedup_sorted_nodes(input: Vec<u32>) -> (r: Vec<u32>)
    requires
        sorted_by(input@, node_leq()),
    ensures
        strictly_increasing(r@),
        r@.to_set() == input@.to_set(),
{
    let mut out: Vec<u32> = Vec::new();
    let mut i: usize = 0;
    proof {
        assert(input@.subrange(0, 0) =~= Seq::<u32>::empty());
        assert(out@.to_set() =~= input@.subrange(0, 0).to_set());
    }
    while i < input.len()
        invariant
            0 <= i <= input@.len(),
            sorted_by(input@, node_leq()),
            strictly_increasing(out@),
            out@.to_set() == input@.subrange(0, i as int).to_set(),
            out@.len() <= i,
            i > 0 ==> out@.len() > 0 && out@.last() == input@[i as int - 1],
        decreases input@.len() - i,
    {
        let x = input[i];
        let ghost pre = input@.subrange(0, i as int);
        let ghost post = input@.subrange(0, i as int + 1);
        proof {
            assert(post =~= pre.push(x));
            pre.lemma_push_to_set_commute(x);
        }
        if out.len() == 0 {
            out.push(x);
            proof {
                assert(i == 0);
                assert(out@ =~= post);
            }
        } else {
            let last = out[out.len() - 1];
            if last == x {
                proof {
                    assert(out@.to_set().contains(x)) by {
                        assert(out@[out@.len() - 1] == x);
                    }
                    assert(pre.to_set().insert(x) =~= pre.to_set());
                }
            } else {
                let ghost old_out = out@;
                proof {
                    assert(node_leq()(input@[i as int - 1], input@[i as int]));
                    assert(last < x);
                }
                out.push(x);
                proof {
                    assert forall|p: int, q: int| 0 <= p < q < out@.len() implies #[trigger] out@[p]
                        < #[trigger] out@[q] by {
                        if q < out@.len() - 1 {
                            assert(out@[p] == old_out[p] && out@[q] == old_out[q]);
                        } else {
                            assert(out@[q] == x);
                            if p < old_out.len() - 1 {
                                assert(out@[p] == old_out[p]);
                                assert(old_out[p] < last);
                            } else {
                                assert(out@[p] == last);
                            }
                        }
                    }
                    assert(out@ =~= old_out.push(x));
                    old_out.lemma_push_to_set_commute(x);
                    assert(out@.to_set() =~= post.to_set());
                }
            }
        }
        i = i + 1;
    }
    proof {
        assert(input@.subrange(0, i as int) =~= input@);
    }
    out
}

/// Every id decremented: one-indexed input turned zero-based.
pub open spec fn dec1_all(s: Seq<u32>) -> Seq<u32> {
    Seq::new(s.len(), |i: int| (s[i] - 1) as u32)
}

/// Every id incremented: zero-based output turned one-indexed.
pub open spec fn inc1_all(s: Seq<u32>) -> Seq<u32> {
    Seq::new(s.len(), |i: int| (s[i] + 1) as u32)
}

/// The little-endian 4-byte encodings of the 1-indexed ids, concatenated.
pub open spec fn le_bytes_of(s: Seq<u32>) -> Seq<u8>
    decreases s.len(),
{
    if s.len() == 0 {
        seq![]
    } else {
        le_bytes_of(s.drop_last()) + le4((s.last() + 1) as u32)
    }
}

/// The digest preimage of a node set: its sorted distinct ids, 1-indexed,
/// as little-endian bytes.
pub open spec fn digest_input(s: Set<u32>) -> Seq<u8> {
    le_bytes_of(sorted_nodes_of(s))
}

/// The content digest of a solution: SHA-1 over the digest preimage of its
/// node set; insensitive to insertion order by construction.
pub open spec fn solution_digest(sol: Seq<u32>) -> Seq<u8> {
    sha1_of(digest_input(sol.to_set()))
}

/// The emitted node lines of a solution document.
pub open spec fn sol_lines_bytes(s: Seq<u32>) -> Seq<u8>
    decreases s.len(),
{
    if s.len() == 0 {
        seq![]
    } else {
        sol_lines_bytes(s.drop_last()) + dec_repr((s.last() + 1) as nat) + seq![NEWLINE]
    }
}

/// A whole emitted solution document: the size line, then one 1-indexed id
/// per line.
pub open spec fn sol_write_bytes(s: Seq<u32>) -> Seq<u8> {
    dec_repr(s.len() as nat) + seq![NEWLINE] + sol_lines_bytes(s)
}

/// Vertex `v` is dominated: in the set, or adjacent to a member.
pub open spec fn covered(edges: Seq<Edge>, sol: Seq<u32>, v: u32) -> bool {
    sol.contains(v) || exists|i: int|
        0 <= i < edges.len() && (((#[trigger] edges[i]).0 == v && sol.contains(edges[i].1)) || (
        edges[i].1 == v && sol.contains(edges[i].0)))
}

/// The set dominates the whole graph.
pub open spec fn dominates(edges: Seq<Edge>, sol: Seq<u32>, n: NumNodes) -> bool {
    forall|v: u32| v < n ==> covered(edges, sol, v)
}

/// Number of marked entries below `v`.
pub open spec fn count_true(bm: Seq<bool>, v: int) -> int
    decreases v,
{
    if v <= 0 {
        0
    } else {
        count_true(bm, v - 1) + if 0 <= v - 1 < bm.len() && bm[v - 1] {
            1int
        } else {
            0int
        }
    }
}

proof fn lemma_count_true_all(bm: Seq<bool>, v: int)
    requires
        0 <= v <= bm.len(),
    ensures
        0 <= count_true(bm, v) <= v,
        count_true(bm, v) == v <==> (forall|w: int| 0 <= w < v ==> bm[w]),
    decreases v,
{
    if v > 0 {
        lemma_count_true_all(bm, v - 1);
    }
}

/// A dominating-set solution: a list of zero-based node ids.
pub struct Solution {
    pub solution: Vec<Node>,
}

impl Solution {
    /// Wraps an already zero-based node list.
    pub fn from_0indexed_vec(solution: Vec<Node>) -> (r: Self)
        ensures
            r.solution@ == solution@,
    {
        Solution { solution }
    }

    /// Converts a 1-indexed node list to zero-based, rejecting the id 0 and,
    /// when a bound is given, any id above it.
    pub fn from_1indexed_vec(solution: Vec<Node>, nodes_upper_bound: Option<NumNodes>) -> (r:
        Result<Self, CoreError>)
        ensures
            r is Ok <==> (forall|i: int|
                0 <= i < solution@.len() ==> #[trigger] solution@[i] >= 1 && (match
                nodes_upper_bound {
                    Option::Some(n) => solution@[i] <= n,
                    Option::None => true,
                })),
            r matches Ok(s) ==> s.solution@ == dec1_all(solution@),
            r matches Err(e) ==> e.kind == ErrorKind::BadInput,
    {
        let mut out: Vec<Node> = Vec::new();
        let mut i: usize = 0;
        while i < solution.len()
            invariant
                0 <= i <= solution@.len(),
                out@ == dec1_all(solution@.subrange(0, i as int)),
                forall|k: int|
                    0 <= k < i ==> #[trigger] solution@[k] >= 1 && (match nodes_upper_bound {
                        Option::Some(n) => solution@[k] <= n,
                        Option::None => true,
                    }),
            decreases solution@.len() - i,
        {
            let u = solution[i];
            if u == 0 {
                return Err(CoreError::bad_input("node id out of range"));
            }
            match nodes_upper_bound {
                Some(n) => {
                    if u > n {
                        return Err(CoreError::bad_input("node id out of range"));
                    }
                },
                None => {},
            }
            out.push(u - 1);
            proof {
                assert(out@ =~= dec1_all(solution@.subrange(0, i as int + 1)));
            }
            i = i + 1;
        }
        proof {
            assert(solution@.subrange(0, i as int) =~= solution@);
        }
        Ok(Solution { solution: out })
    }

    /// Reads a solution document: a size line, then that many distinct
    /// 1-indexed node lines, each below the bound when one is given. The
    /// result is sorted and duplicate-free.
    pub fn read(data: &[u8], nodes_upper_bound: Option<NumNodes>) -> (r: Result<Self, CoreError>)
        ensures
            r is Ok <==> (sol_size_of(data@) matches Some(k) && (parse_sol_nodes(
                sol_body_lines(data@),
            ) matches Some(vs) && vs.len() == k && vs.no_duplicates() && (match nodes_upper_bound {
                Option::Some(n) => forall|i: int| 0 <= i < vs.len() ==> #[trigger] vs[i] < n,
                Option::None => true,
            }))),
            r matches Ok(s) ==> {
                &&& strictly_increasing(s.solution@)
                &&& s.solution@ == sorted_nodes_of(
                    parse_sol_nodes(sol_body_lines(data@))->Some_0.to_set(),
                )
                &&& s.solution@.to_set() == parse_sol_nodes(sol_body_lines(data@))->Some_0.to_set()
                &&& s.solution@.len() == sol_size_of(data@)->Some_0
            },
            r matches Err(e) ==> e.kind == ErrorKind::BadInput,
    {
        broadcast use group_to_multiset_ensures;

        let mut reader = match SolutionReader::try_new(data) {
            Ok(rd) => rd,
            Err(e) => {
                return Err(e);
            },
        };
        let ghost r0 = reader.rest();
        let k = reader.solution_size();
        let mut vals: Vec<Node> = Vec::new();
        let ghost mut gvs: Seq<Node> = Seq::<Node>::empty();
        proof {
            if parse_sol_nodes(r0) is Some {
                let s = parse_sol_nodes(r0)->Some_0;
                assert(gvs + s =~= s);
            }
        }
        loop
            invariant
                reader.wf(),
                reader.size_spec() == k,
                sol_size_of(data@) == Some(k),
                r0 == sol_body_lines(data@),
                vals@ == gvs,
                parse_sol_nodes(r0) == (match parse_sol_nodes(reader.rest()) {
                    Option::Some(s) => Option::Some(gvs + s),
                    Option::None => Option::None::<Seq<Node>>,
                }),
                forall|i: int|
                    0 <= i < gvs.len() ==> (match nodes_upper_bound {
                        Option::Some(n) => #[trigger] gvs[i] < n,
                        Option::None => true,
                    }),
            ensures
                parse_sol_nodes(r0) == Some(gvs),
                vals@ == gvs,
            decreases reader.rest().len() + 1,
        {
            let step = reader.next_node();
            match step {
                Err(_) => {
                    proof {
                        assert(parse_sol_nodes(r0) is None);
                    }
                    return Err(CoreError::bad_input("malformed node line"));
                },
                Ok(None) => {
                    proof {
                        assert(gvs + Seq::<Node>::empty() =~= gvs);
                    }
                    break ;
                },
                Ok(Some(v)) => {
                    let ghost prev = gvs;
                    proof {
                        gvs = gvs.push(v);
                        assert forall|s: Seq<Node>| true implies prev + (seq![v] + s) =~= gvs
                            + s by {
                            assert(prev + (seq![v] + s) =~= prev.push(v) + s);
                        }
                    }
                    match nodes_upper_bound {
                        Some(n) => {
                            if v >= n {
                                proof {
                                    if parse_sol_nodes(r0) is Some {
                                        let full = parse_sol_nodes(r0)->Some_0;
                                        assert(full[prev.len() as int] == v);
                                    }
                                }
                                return Err(
                                    CoreError::bad_input(
                                        "node id larger than the number of nodes in the header",
                                    ),
                                );
                            }
                        },
                        None => {},
                    }
                    vals.push(v);
                },
            }
        }
        if vals.len() as u64 != k as u64 {
            return Err(
                CoreError::bad_input(
                    "number of nodes in solution does not match the header",
                ),
            );
        }
        let ghost gvals = vals@;
        let sorted = sort_nodes(vals);
        let ok = check_strictly_increasing(&sorted);
        proof {
            if strictly_increasing(sorted@) {
                // duplicate-freedom carries back through the permutation
                sorted@.lemma_multiset_has_no_duplicates();
                gvals.lemma_multiset_has_no_duplicates_conv();
            } else {
                if gvals.no_duplicates() {
                    gvals.lemma_multiset_has_no_duplicates();
                    sorted@.lemma_multiset_has_no_duplicates_conv();
                    assert(sorted@.no_duplicates());
                    let leq = node_leq();
                    assert forall|p: int, q: int| 0 <= p < q < sorted@.len() implies
                        #[trigger] sorted@[p] < #[trigger] sorted@[q] by {
                        assert(leq(sorted@[p], sorted@[q]));
                    }
                }
            }
        }
        if !ok {
            return Err(CoreError::bad_input("solution contains duplicates"));
        }
        proof {
            assert forall|v: u32| sorted@.to_set().contains(v) <==> gvals.to_set().contains(
                v,
            ) by {
                if sorted@.contains(v) {
                    assert(sorted@.to_multiset().count(v) > 0);
                    assert(gvals.contains(v));
                }
                if gvals.contains(v) {
                    assert(gvals.to_multiset().count(v) > 0);
                    assert(sorted@.contains(v));
                }
            }
            assert(sorted@.to_set() =~= gvals.to_set());
            lemma_sorted_nodes_of_witness(sorted@);
        }
        Ok(Solution { solution: sorted })
    }

    pub fn solution(&self) -> (r: &Vec<Node>)
        ensures
            r@ == self.solution@,
    {
        &self.solution
    }

    /// Emits the solution document: the size, then one 1-indexed id per
    /// line. An empty solution is refused.
    pub fn write(&self) -> (r: Result<Vec<u8>, CoreError>)
        requires
            forall|i: int| 0 <= i < self.solution@.len() ==> #[trigger] self.solution@[i] < u32::MAX,
        ensures
            r is Ok <==> self.solution@.len() > 0,
            r matches Ok(out) ==> out@ == sol_write_bytes(self.solution@),
            r matches Err(e) ==> e.kind == ErrorKind::BadInput,
    {
        if self.solution.len() == 0 {
            return Err(CoreError::bad_input("no solution to write"));
        }
        let mut out: Vec<u8> = Vec::new();
        let k_dec = u64_to_dec(self.solution.len() as u64);
        out.extend_from_slice(k_dec.as_slice());
        out.push(NEWLINE);
        proof {
            assert(sol_lines_bytes(self.solution@.subrange(0, 0)) =~= Seq::<u8>::empty());
            assert(out@ =~= dec_repr(self.solution@.len() as nat) + seq![NEWLINE] + sol_lines_bytes(
                self.solution@.subrange(0, 0),
            ));
        }
        let mut i: usize = 0;
        while i < self.solution.len()
            invariant
                0 <= i <= self.solution@.len(),
                forall|k: int|
                    0 <= k < self.solution@.len() ==> #[trigger] self.solution@[k] < u32::MAX,
                out@ == dec_repr(self.solution@.len() as nat) + seq![NEWLINE] + sol_lines_bytes(
                    self.solution@.subrange(0, i as int),
                ),
            decreases self.solution@.len() - i,
        {
            let u = self.solution[i];
            let u_dec = u64_to_dec((u + 1) as u64);
            out.extend_from_slice(u_dec.as_slice());
            out.push(NEWLINE);
            proof {
                let pre = self.solution@.subrange(0, i as int);
                let post = self.solution@.subrange(0, i as int + 1);
                assert(post.drop_last() =~= pre);
                assert(post.last() == u);
                assert(out@ =~= dec_repr(self.solution@.len() as nat) + seq![NEWLINE]
                    + sol_lines_bytes(post));
            }
            i = i + 1;
        }
        proof {
            assert(self.solution@.subrange(0, i as int) =~= self.solution@);
        }
        Ok(out)
    }

    /// Verifies that the solution dominates the instance: every vertex of
    /// `[0, n)` is in the set or adjacent to a member. Edge endpoints and
    /// set members at or above `n` are rejected.
    pub fn valid_domset_for_instance(&self, n: NumNodes, edges: &Vec<Edge>) -> (r: Result<
        bool,
        CoreError,
    >)
        ensures
            r is Ok <==> ((forall|i: int|
                0 <= i < edges@.len() ==> (#[trigger] edges@[i]).0 < n && edges@[i].1 < n) && (
            forall|i: int| 0 <= i < self.solution@.len() ==> #[trigger] self.solution@[i] < n)),
            r matches Ok(b) ==> b == dominates(edges@, self.solution@, n),
            r matches Err(e) ==> e.kind == ErrorKind::BadInput,
    {
        let nsz = n as usize;
        // reject out-of-range edges first, as the instance is authoritative
        let mut i: usize = 0;
        while i < edges.len()
            invariant
                0 <= i <= edges@.len(),
                forall|k: int| 0 <= k < i ==> (#[trigger] edges@[k]).0 < n && edges@[k].1 < n,
            decreases edges@.len() - i,
        {
            let e = edges[i];
            if e.0 >= n || e.1 >= n {
                return Err(
                    CoreError::bad_input(
                        "edge contains node id larger than the number of nodes",
                    ),
                );
            }
            i = i + 1;
        }
        // membership flags for the proposed set
        let mut in_sol: Vec<bool> = Vec::new();
        let mut fill: usize = 0;
        while fill < nsz
            invariant
                in_sol@.len() == fill,
                fill <= nsz,
                forall|v: int| 0 <= v < fill ==> !(#[trigger] in_sol@[v]),
            decreases nsz - fill,
        {
            in_sol.push(false);
            fill = fill + 1;
        }
        let mut j: usize = 0;
        proof {
            assert forall|v: int| 0 <= v < nsz implies in_sol@[v] == self.solution@.subrange(
                0,
                0,
            ).contains(v as u32) by {
                if self.solution@.subrange(0, 0).contains(v as u32) {
                    let w = choose|w: int| 0 <= w < 0 && self.solution@.subrange(0, 0)[w] == v as u32;
                }
            }
        }
        while j < self.solution.len()
            invariant
                0 <= j <= self.solution@.len(),
                in_sol@.len() == nsz,
                nsz == n as usize,
                forall|k: int| 0 <= k < j ==> #[trigger] self.solution@[k] < n,
                forall|v: int|
                    0 <= v < nsz ==> #[trigger] in_sol@[v] == self.solution@.subrange(
                        0,
                        j as int,
                    ).contains(v as u32),
            decreases self.solution@.len() - j,
        {
            let s = self.solution[j];
            if s >= n {
                return Err(
                    CoreError::bad_input(
                        "node id in solution larger than the number of nodes",
                    ),
                );
            }
            let ghost pre = self.solution@.subrange(0, j as int);
            let ghost post = self.solution@.subrange(0, j as int + 1);
            in_sol[s as usize] = true;
            proof {
                assert(post.drop_last() =~= pre);
                assert(post.last() == s);
                assert forall|v: int| 0 <= v < nsz implies #[trigger] in_sol@[v] == post.contains(
                    v as u32,
                ) by {
                    if v == s as int {
                        assert(post[j as int] == s);
                        assert(post.contains(s));
                    } else {
                        if pre.contains(v as u32) {
                            let w = choose|w: int| 0 <= w < pre.len() && pre[w] == v as u32;
                            assert(post[w] == v as u32);
                        }
                        if post.contains(v as u32) {
                            let w = choose|w: int| 0 <= w < post.len() && post[w] == v as u32;
                            assert(w < pre.len());
                            assert(pre[w] == v as u32);
                        }
                    }
                }
            }
            j = j + 1;
        }
        proof {
            assert(self.solution@.subrange(0, j as int) =~= self.solution@);
        }
        // mark everything the set covers
        let mut cov: Vec<bool> = Vec::new();
        let mut c: usize = 0;
        while c < nsz
            invariant
                0 <= c <= nsz,
                in_sol@.len() == nsz,
                cov@.len() == c,
                forall|v: int| 0 <= v < c ==> #[trigger] cov@[v] == in_sol@[v],
            decreases nsz - c,
        {
            cov.push(in_sol[c]);
            c = c + 1;
        }
        proof {
            assert forall|v: int| 0 <= v < nsz implies #[trigger] cov@[v] == covered(
                edges@.subrange(0, 0),
                self.solution@,
                v as u32,
            ) by {
                assert(edges@.subrange(0, 0).len() == 0);
                assert(in_sol@[v] == self.solution@.contains(v as u32));
            }
        }
        let mut t: usize = 0;
        while t < edges.len()
            invariant
                0 <= t <= edges@.len(),
                in_sol@.len() == nsz,
                cov@.len() == nsz,
                nsz == n as usize,
                forall|k: int| 0 <= k < edges@.len() ==> (#[trigger] edges@[k]).0 < n && edges@[k].1 < n,
                forall|v: int|
                    0 <= v < nsz ==> #[trigger] in_sol@[v] == self.solution@.contains(v as u32),
                forall|v: int|
                    0 <= v < nsz ==> #[trigger] cov@[v] == covered(
                        edges@.subrange(0, t as int),
                        self.solution@,
                        v as u32,
                    ),
            decreases edges@.len() - t,
        {
            let e = edges[t];
            let ghost pre = edges@.subrange(0, t as int);
            let ghost post = edges@.subrange(0, t as int + 1);
            let ghost old_cov = cov@;
            if in_sol[e.0 as usize] {
                let c1 = cov[e.1 as usize];
                if !c1 {
                    cov[e.1 as usize] = true;
                }
            }
            if in_sol[e.1 as usize] {
                let c0 = cov[e.0 as usize];
                if !c0 {
                    cov[e.0 as usize] = true;
                }
            }
            proof {
                assert(post.drop_last() =~= pre);
                assert(post.last() == e);
                assert forall|v: int| 0 <= v < nsz implies #[trigger] cov@[v] == covered(
                    post,
                    self.solution@,
                    v as u32,
                ) by {
                    let sol = self.solution@;
                    let vv = v as u32;
                    if covered(pre, sol, vv) {
                        let w = choose|w: int|
                            0 <= w < pre.len() && (((#[trigger] pre[w]).0 == vv && sol.contains(
                                pre[w].1,
                            )) || (pre[w].1 == vv && sol.contains(pre[w].0))) || sol.contains(vv);
                        if sol.contains(vv) {
                            assert(covered(post, sol, vv));
                        } else {
                            let w2 = choose|w2: int|
                                0 <= w2 < pre.len() && (((#[trigger] pre[w2]).0 == vv
                                    && sol.contains(pre[w2].1)) || (pre[w2].1 == vv && sol.contains(
                                    pre[w2].0,
                                )));
                            assert(post[w2] == pre[w2]);
                            assert(covered(post, sol, vv));
                        }
                    }
                    if covered(post, sol, vv) && !covered(pre, sol, vv) {
                        // only the new edge can be the witness
                        let w2 = choose|w2: int|
                            0 <= w2 < post.len() && (((#[trigger] post[w2]).0 == vv && sol.contains(
                                post[w2].1,
                            )) || (post[w2].1 == vv && sol.contains(post[w2].0)));
                        if w2 < pre.len() {
                            assert(pre[w2] == post[w2]);
                            assert(covered(pre, sol, vv));
                        } else {
                            assert(post[w2] == e);
                        }
                        assert(cov@[v]);
                    }
                    if !covered(post, sol, vv) {
                        assert(!covered(pre, sol, vv));
                        assert(!old_cov[v]);
                        if cov@[v] != old_cov[v] {
                            assert((e.0 == vv && sol.contains(e.1)) || (e.1 == vv && sol.contains(
                                e.0,
                            )));
                            assert(post[t as int] == e);
                            assert(covered(post, sol, vv));
                        }
                    }
                    if covered(pre, sol, vv) {
                        assert(old_cov[v]);
                        assert(cov@[v] || cov@[v] == old_cov[v]);
                        if !cov@[v] {
                            assert(false);
                        }
                        assert(covered(post, sol, vv));
                    }
                }
            }
            t = t + 1;
        }
        proof {
            assert(edges@.subrange(0, t as int) =~= edges@);
        }
        // the set dominates the instance exactly when everything is covered
        let mut cnt: usize = 0;
        let mut v: usize = 0;
        while v < nsz
            invariant
                0 <= v <= nsz,
                cov@.len() == nsz,
                cnt == count_true(cov@, v as int),
                cnt <= v,
            decreases nsz - v,
        {
            proof {
                lemma_count_true_all(cov@, v as int + 1);
                lemma_count_true_all(cov@, v as int);
            }
            if cov[v] {
                cnt = cnt + 1;
            }
            v = v + 1;
        }
        proof {
            lemma_count_true_all(cov@, nsz as int);
            if cnt == nsz {
                assert forall|w: u32| w < n implies covered(edges@, self.solution@, w) by {
                    assert(cov@[w as int]);
                }
            } else {
                let w = choose|w: int| 0 <= w < nsz && !cov@[w];
                assert(!covered(edges@, self.solution@, w as u32));
            }
        }
        Ok(cnt == nsz)
    }

    /// The SHA-1 content digest over the sorted distinct 1-indexed ids as
    /// little-endian bytes; two solutions with the same node set digest
    /// equally, whatever their order.
    pub fn compute_digest(&self) -> (r: Vec<u8>)
        requires
            forall|i: int| 0 <= i < self.solution@.len() ==> #[trigger] self.solution@[i] < u32::MAX,
        ensures
            r@ == solution_digest(self.solution@),
            r@.len() == 20,
    {
        broadcast use group_to_multiset_ensures;

        let mut ids: Vec<u32> = Vec::new();
        let mut i: usize = 0;
        while i < self.solution.len()
            invariant
                0 <= i <= self.solution@.len(),
                ids@ == self.solution@.subrange(0, i as int),
            decreases self.solution@.len() - i,
        {
            ids.push(self.solution[i]);
            proof {
                assert(ids@ =~= self.solution@.subrange(0, i as int + 1));
            }
            i = i + 1;
        }
        proof {
            assert(self.solution@.subrange(0, i as int) =~= self.solution@);
        }
        let ghost orig = self.solution@;
        let sorted = sort_nodes(ids);
        let dd = dedup_sorted_nodes(sorted);
        proof {
            assert forall|v: u32| sorted@.to_set().contains(v) <==> orig.to_set().contains(v) by {
                if sorted@.contains(v) {
                    assert(sorted@.to_multiset().count(v) > 0);
                    assert(orig.contains(v));
                }
                if orig.contains(v) {
                    assert(orig.to_multiset().count(v) > 0);
                    assert(sorted@.contains(v));
                }
            }
            assert(sorted@.to_set() =~= orig.to_set());
            assert(dd@.to_set() == orig.to_set());
            lemma_sorted_nodes_of_witness(dd@);
            assert forall|k: int| 0 <= k < dd@.len() implies #[trigger] dd@[k] < u32::MAX by {
                assert(dd@.to_set().contains(dd@[k]));
                assert(orig.contains(dd@[k]));
                let w = choose|w: int| 0 <= w < orig.len() && orig[w] == dd@[k];
            }
        }
        let mut bytes: Vec<u8> = Vec::new();
        let mut j: usize = 0;
        proof {
            assert(le_bytes_of(dd@.subrange(0, 0)) =~= Seq::<u8>::empty());
            assert(bytes@ =~= le_bytes_of(dd@.subrange(0, 0)));
        }
        while j < dd.len()
            invariant
                0 <= j <= dd@.len(),
                dd@.to_set() == orig.to_set(),
                forall|k: int| 0 <= k < dd@.len() ==> #[trigger] dd@[k] < u32::MAX,
                bytes@ == le_bytes_of(dd@.subrange(0, j as int)),
            decreases dd@.len() - j,
        {
            let u = dd[j];
            push_le4(&mut bytes, u + 1);
            proof {
                let pre = dd@.subrange(0, j as int);
                let post = dd@.subrange(0, j as int + 1);
                assert(post.drop_last() =~= pre);
                assert(post.last() == u);
                assert(bytes@ =~= le_bytes_of(post));
            }
            j = j + 1;
        }
        proof {
            assert(dd@.subrange(0, j as int) =~= dd@);
        }
        sha1(&bytes)
    }

    /// Gives the node list up, zero-based.
    pub fn take_solution(self) -> (r: Vec<Node>)
        ensures
            r@ == self.solution@,
    {
        self.solution
    }

    /// Gives the node list up, converted to 1-indexed ids.
    pub fn take_1indexed_solution(self) -> (r: Vec<Node>)
        requires
            forall|i: int| 0 <= i < self.solution@.len() ==> #[trigger] self.solution@[i] < u32::MAX,
        ensures
            r@ == inc1_all(self.solution@),
    {
        let mut out: Vec<Node> = Vec::new();
        let mut i: usize = 0;
        while i < self.solution.len()
            invariant
                0 <= i <= self.solution@.len(),
                forall|k: int|
                    0 <= k < self.solution@.len() ==> #[trigger] self.solution@[k] < u32::MAX,
                out@ == inc1_all(self.solution@.subrange(0, i as int)),
            decreases self.solution@.len() - i,
        {
            out.push(self.solution[i] + 1);
            proof {
                assert(out@ =~= inc1_all(self.solution@.subrange(0, i as int + 1)));
            }
            i = i + 1;
        }
        proof {
            assert(self.solution@.subrange(0, i as int) =~= self.solution@);
        }
        out
    }
}

/// Solution digest invariance: two node lists with the same set of ids
/// have the same digest, whatever order they came in.
pub proof fn lemma_digest_order_insensitive(a: Seq<u32>, b: Seq<u32>)
    requires
        a.to_set() == b.to_set(),
    ensures
        solution_digest(a) == solution_digest(b),
{
}

} // verus!
