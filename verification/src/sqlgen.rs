//! The parameterized SQL shapes of the listing queries. A query is a list
//! of pieces: constant fragments from a closed whitelist, and typed bind
//! values. Each builder's contract pins the emitted piece list exactly —
//! one conjunct per set option — and user-controlled bytes can only ever
//! become binds, never query text.
use vstd::prelude::*;

use crate::filter::{FilterOptions, ResultStatusFilter, SortBy, SortDirection};
use crate::text::{dec_value, split_ws, valid_number};

verus! {

/// One piece of a parameterized query: a whitelisted text fragment or a
/// typed placeholder value. A uuid bind is rendered as its hex string by
/// the database layer.
pub enum SqlPiece {
    Frag(&'static str),
    BindU32(u32),
    BindU64(u64),
    BindBool(bool),
    BindUuid(u128),
    BindBytes(Vec<u8>),
}

/// Two pieces carry the same query content: fragments and byte binds are
/// compared by their text, the typed binds by value.
pub open spec fn piece_eqv(a: SqlPiece, b: SqlPiece) -> bool {
    match (a, b) {
        (SqlPiece::Frag(x), SqlPiece::Frag(y)) => x@ == y@,
        (SqlPiece::BindBytes(x), SqlPiece::BindBytes(y)) => x@ == y@,
        _ => a == b,
    }
}

pub open spec fn pieces_eqv(a: Seq<SqlPiece>, b: Seq<SqlPiece>) -> bool {
    a.len() == b.len() && (forall|i: int| 0 <= i < a.len() ==> piece_eqv(#[trigger] a[i], b[i]))
}

/// `new` extends `old` by exactly the pieces of `part`.
pub open spec fn appended(old: Seq<SqlPiece>, new: Seq<SqlPiece>, part: Seq<SqlPiece>) -> bool {
    &&& new.len() == old.len() + part.len()
    &&& new.subrange(0, old.len() as int) == old
    &&& pieces_eqv(new.subrange(old.len() as int, new.len() as int), part)
}

proof fn lemma_appended_chain(
    a: Seq<SqlPiece>,
    b: Seq<SqlPiece>,
    c: Seq<SqlPiece>,
    p: Seq<SqlPiece>,
    q: Seq<SqlPiece>,
)
    requires
        appended(a, b, p),
        appended(b, c, q),
    ensures
        appended(a, c, p + q),
{
    assert(c.subrange(0, a.len() as int) =~= b.subrange(0, a.len() as int)) by {
        assert forall|i: int| 0 <= i < a.len() implies c.subrange(0, a.len() as int)[i]
            == b.subrange(0, a.len() as int)[i] by {
            assert(c[i] == c.subrange(0, b.len() as int)[i]);
            assert(c.subrange(0, b.len() as int) == b);
        }
    }
    let ct = c.subrange(a.len() as int, c.len() as int);
    assert forall|i: int| 0 <= i < ct.len() implies piece_eqv(#[trigger] ct[i], (p + q)[i]) by {
        if i < p.len() {
            assert(ct[i] == c[a.len() + i]);
            assert(c[a.len() + i] == c.subrange(0, b.len() as int)[a.len() + i]);
            assert(c.subrange(0, b.len() as int) == b);
            assert(b[a.len() + i] == b.subrange(a.len() as int, b.len() as int)[i]);
            assert(piece_eqv(b.subrange(a.len() as int, b.len() as int)[i], p[i]));
        } else {
            assert(ct[i] == c[a.len() + i]);
            assert(c[a.len() + i] == c.subrange(b.len() as int, c.len() as int)[i - p.len()]);
            assert(piece_eqv(
                c.subrange(b.len() as int, c.len() as int)[i - p.len()],
                q[i - p.len()],
            ));
        }
    }
}

proof fn lemma_eqv_extend(prev: Seq<SqlPiece>, cur: Seq<SqlPiece>, done: Seq<SqlPiece>, part: Seq<SqlPiece>)
    requires
        pieces_eqv(prev, done),
        appended(prev, cur, part),
    ensures
        pieces_eqv(cur, done + part),
{
    assert forall|i: int| 0 <= i < cur.len() implies piece_eqv(#[trigger] cur[i], (done + part)[i]) by {
        if i < prev.len() {
            assert(cur[i] == cur.subrange(0, prev.len() as int)[i]);
            assert(cur.subrange(0, prev.len() as int) == prev);
            assert(piece_eqv(prev[i], done[i]));
        } else {
            assert(cur[i] == cur.subrange(prev.len() as int, cur.len() as int)[i - prev.len()]);
            assert(piece_eqv(
                cur.subrange(prev.len() as int, cur.len() as int)[i - prev.len()],
                part[i - prev.len()],
            ));
        }
    }
}

/// The closed whitelist of query text: every fragment a builder may emit.
pub open spec fn frag_whitelisted(s: Seq<char>) -> bool {
    ||| s == " AND i.nodes >= "@
    ||| s == " AND i.nodes <= "@
    ||| s == " AND i.edges >= "@
    ||| s == " AND i.edges <= "@
    ||| s == " AND i.best_score >= "@
    ||| s == " AND i.best_score <= "@
    ||| s == " AND i.min_deg >= "@
    ||| s == " AND i.min_deg <= "@
    ||| s == " AND i.max_deg >= "@
    ||| s == " AND i.max_deg <= "@
    ||| s == " AND i.num_ccs >= "@
    ||| s == " AND i.num_ccs <= "@
    ||| s == " AND i.nodes_largest_cc >= "@
    ||| s == " AND i.nodes_largest_cc <= "@
    ||| s == " AND i.diameter >= "@
    ||| s == " AND i.diameter <= "@
    ||| s == " AND i.treewidth >= "@
    ||| s == " AND i.treewidth <= "@
    ||| s == " AND i.iid = "@
    ||| s == " AND i.planar = "@
    ||| s == " AND i.bipartite = "@
    ||| s == " AND i.min_deg = i.max_deg "@
    ||| s == " AND i.min_deg != i.max_deg "@
    ||| s == " AND s.sr_uuid = UNHEX("@
    ||| s == ")"@
    ||| s == " AND s.score >= "@
    ||| s == " AND s.score <= "@
    ||| s == " AND s.score - i.best_score >= "@
    ||| s == " AND s.score - i.best_score <= "@
    ||| s == " AND s.seconds_computed >= "@
    ||| s == " AND s.seconds_computed <= "@
    ||| s == " AND s.score IS NOT NULL "@
    ||| s == " AND s.score IS NULL "@
    ||| s == " AND i.best_score = s.score "@
    ||| s == " AND i.best_score < s.score "@
    ||| s == " AND s.error_code = "@
    ||| s == " AND (MATCH (i.`name`, i.`description`, i.`submitted_by`) AGAINST ("@
    ||| s == " OR i.iid = "@
    ||| s == ") "@
    ||| s == "SELECT COUNT(*) as cnt FROM `Instance` i "@
    ||| s == "SELECT i.iid FROM `Instance` i "@
    ||| s
        == "SELECT i.iid, i.nodes, i.edges, i.name, i.description, i.best_score, i.min_deg, i.max_deg, i.num_ccs, i.nodes_largest_cc, i.diameter, i.treewidth, i.planar, i.bipartite, GROUP_CONCAT(tag_tid) as tags "@
    ||| s == ", HEX(s.solution_hash) as solution_hash, s.error_code, s.score, s.seconds_computed FROM `Instance` i "@
    ||| s == ", NULL as solution_hash, NULL as error_code, NULL as score, NULL as seconds_computed FROM `Instance` i "@
    ||| s == " JOIN Solution s ON i.iid = s.instance_iid "@
    ||| s == " JOIN InstanceTag it ON i.iid = it.instance_iid WHERE it.tag_tid = "@
    ||| s == " JOIN InstanceTag it ON i.iid = it.instance_iid WHERE 1=1 "@
    ||| s == " WHERE 1=1 "@
    ||| s == " GROUP BY i.iid "@
    ||| s == ", s.sr_uuid"@
    ||| s == " ORDER BY "@
    ||| s == " ASC "@
    ||| s == " DESC "@
    ||| s == "LIMIT "@
    ||| s == " OFFSET "@
    ||| s == "iid"@
    ||| s == "name"@
    ||| s == "nodes"@
    ||| s == "edges"@
    ||| s == "i.created_at"@
    ||| s == "best_score"@
    ||| s == "min_deg"@
    ||| s == "max_deg"@
    ||| s == "edges / nodes"@
    ||| s == "num_ccs"@
    ||| s == "nodes_largest_cc"@
    ||| s == "diameter"@
    ||| s == "bipartite"@
    ||| s == "planar"@
    ||| s == "treewidth"@
    ||| s == "min_deg=max_deg"@
    ||| s == "s.score"@
    ||| s == "s.score - i.best_score"@
    ||| s == "s.seconds_computed"@
    ||| s == "s.error_code"@
}

/// No piece of query text falls outside the whitelist.
pub open spec fn pieces_safe(ps: Seq<SqlPiece>) -> bool {
    forall|i: int|
        0 <= i < ps.len() ==> (#[trigger] ps[i] matches SqlPiece::Frag(f) ==> frag_whitelisted(f@))
}

/// Appends a whitelisted fragment.
fn push_frag(v: &mut Vec<SqlPiece>, s: &'static str)
    requires
        frag_whitelisted(s@),
        pieces_safe(old(v)@),
    ensures
        final(v)@ == old(v)@.push(SqlPiece::Frag(s)),
        pieces_safe(final(v)@),
{
    let ghost old_v = v@;
    v.push(SqlPiece::Frag(s));
    proof {
        assert forall|i: int| 0 <= i < v@.len() implies (#[trigger] v@[i] matches SqlPiece::Frag(f)
            ==> frag_whitelisted(f@)) by {
            if i < old_v.len() {
                assert(v@[i] == old_v[i]);
            }
        }
    }
}

/// Appends a typed bind; binds are never query text.
fn push_bind(v: &mut Vec<SqlPiece>, p: SqlPiece)
    requires
        !(p matches SqlPiece::Frag(_)),
        pieces_safe(old(v)@),
    ensures
        final(v)@ == old(v)@.push(p),
        pieces_safe(final(v)@),
{
    let ghost old_v = v@;
    v.push(p);
    proof {
        assert forall|i: int| 0 <= i < v@.len() implies (#[trigger] v@[i] matches SqlPiece::Frag(f)
            ==> frag_whitelisted(f@)) by {
            if i < old_v.len() {
                assert(v@[i] == old_v[i]);
            }
        }
    }
}

/// The pieces of one range filter: a conjunct per present bound.
pub open spec fn range_pieces(
    ge: &'static str,
    le: &'static str,
    lb: Option<u32>,
    ub: Option<u32>,
) -> Seq<SqlPiece> {
    (match lb {
        Option::Some(x) => seq![SqlPiece::Frag(ge), SqlPiece::BindU32(x)],
        Option::None => seq![],
    }) + (match ub {
        Option::Some(x) => seq![SqlPiece::Frag(le), SqlPiece::BindU32(x)],
        Option::None => seq![],
    })
}

/// The pieces of one equality filter over a numeric or boolean column.
pub open spec fn opt_u32_pieces(f: &'static str, v: Option<u32>) -> Seq<SqlPiece> {
    match v {
        Option::Some(x) => seq![SqlPiece::Frag(f), SqlPiece::BindU32(x)],
        Option::None => seq![],
    }
}

pub open spec fn opt_u64_pieces(f: &'static str, v: Option<u64>) -> Seq<SqlPiece> {
    match v {
        Option::Some(x) => seq![SqlPiece::Frag(f), SqlPiece::BindU64(x)],
        Option::None => seq![],
    }
}

pub open spec fn opt_bool_pieces(f: &'static str, v: Option<bool>) -> Seq<SqlPiece> {
    match v {
        Option::Some(x) => seq![SqlPiece::Frag(f), SqlPiece::BindBool(x)],
        Option::None => seq![],
    }
}

/// The regularity facet: an equality or inequality of the degree columns.
pub open spec fn regular_pieces(v: Option<bool>) -> Seq<SqlPiece> {
    match v {
        Option::Some(true) => seq![SqlPiece::Frag(" AND i.min_deg = i.max_deg ")],
        Option::Some(false) => seq![SqlPiece::Frag(" AND i.min_deg != i.max_deg ")],
        Option::None => seq![],
    }
}

/// The result-status facet of the overlay.
pub open spec fn status_pieces(rs: ResultStatusFilter) -> Seq<SqlPiece> {
    match rs {
        ResultStatusFilter::NoFilter => seq![],
        ResultStatusFilter::Valid => seq![SqlPiece::Frag(" AND s.score IS NOT NULL ")],
        ResultStatusFilter::Invalid => seq![SqlPiece::Frag(" AND s.score IS NULL ")],
        ResultStatusFilter::Optimal => seq![SqlPiece::Frag(" AND i.best_score = s.score ")],
        ResultStatusFilter::Suboptimal => seq![SqlPiece::Frag(" AND i.best_score < s.score ")],
        ResultStatusFilter::Incomplete => seq![
            SqlPiece::Frag(" AND s.error_code = "),
            SqlPiece::BindU32(6),
        ],
        ResultStatusFilter::Timeout => seq![
            SqlPiece::Frag(" AND s.error_code = "),
            SqlPiece::BindU32(4),
        ],
        ResultStatusFilter::Infeasible => seq![
            SqlPiece::Frag(" AND s.error_code = "),
            SqlPiece::BindU32(2),
        ],
        ResultStatusFilter::Error => seq![
            SqlPiece::Frag(" AND s.error_code = "),
            SqlPiece::BindU32(3),
        ],
    }
}

/// The overlay block: the run match and the overlay-only facets.
pub open spec fn overlay_pieces(opts: FilterOptions) -> Seq<SqlPiece> {
    match opts.run {
        Option::Some(run) => seq![
            SqlPiece::Frag(" AND s.sr_uuid = UNHEX("),
            SqlPiece::BindUuid(run),
            SqlPiece::Frag(")"),
        ] + range_pieces(" AND s.score >= ", " AND s.score <= ", opts.score_lb, opts.score_ub)
            + range_pieces(
            " AND s.score - i.best_score >= ",
            " AND s.score - i.best_score <= ",
            opts.score_diff_lb,
            opts.score_diff_ub,
        ) + opt_u64_pieces(" AND s.seconds_computed >= ", opts.seconds_computed_lb)
            + opt_u64_pieces(" AND s.seconds_computed <= ", opts.seconds_computed_ub)
            + status_pieces(opts.result_status),
        Option::None => seq![],
    }
}

/// The iid alternative of one search word: numeric words match the id.
pub open spec fn token_pieces(t: Seq<u8>) -> Seq<SqlPiece> {
    if valid_number(t, 0x1_0000_0000) {
        seq![SqlPiece::Frag(" OR i.iid = "), SqlPiece::BindU32(dec_value(t) as u32)]
    } else {
        seq![]
    }
}

/// The iid alternatives of every search word, in order.
pub open spec fn word_pieces(toks: Seq<Seq<u8>>) -> Seq<SqlPiece>
    decreases toks.len(),
{
    if toks.len() == 0 {
        seq![]
    } else {
        word_pieces(toks.drop_last()) + token_pieces(toks.last())
    }
}

/// The free-text search block: the fulltext match plus one iid
/// alternative per numeric word.
pub open spec fn search_pieces(s: Option<Vec<u8>>) -> Seq<SqlPiece> {
    match s {
        Option::Some(sv) => seq![
            SqlPiece::Frag(" AND (MATCH (i.`name`, i.`description`, i.`submitted_by`) AGAINST ("),
            SqlPiece::BindBytes(sv),
        ] + word_pieces(split_ws(sv@)) + seq![SqlPiece::Frag(") ")],
        Option::None => seq![],
    }
}

/// The base facets: every non-overlay conjunct, in emission order.
pub open spec fn base_pieces(opts: FilterOptions) -> Seq<SqlPiece> {
    range_pieces(" AND i.nodes >= ", " AND i.nodes <= ", opts.nodes_lb, opts.nodes_ub)
        + range_pieces(" AND i.edges >= ", " AND i.edges <= ", opts.edges_lb, opts.edges_ub)
        + range_pieces(
        " AND i.best_score >= ",
        " AND i.best_score <= ",
        opts.best_score_lb,
        opts.best_score_ub,
    ) + range_pieces(" AND i.min_deg >= ", " AND i.min_deg <= ", opts.min_deg_lb, opts.min_deg_ub)
        + range_pieces(" AND i.max_deg >= ", " AND i.max_deg <= ", opts.max_deg_lb, opts.max_deg_ub)
        + range_pieces(" AND i.num_ccs >= ", " AND i.num_ccs <= ", opts.num_ccs_lb, opts.num_ccs_ub)
        + range_pieces(
        " AND i.nodes_largest_cc >= ",
        " AND i.nodes_largest_cc <= ",
        opts.nodes_largest_cc_lb,
        opts.nodes_largest_cc_ub,
    ) + range_pieces(
        " AND i.diameter >= ",
        " AND i.diameter <= ",
        opts.diameter_lb,
        opts.diameter_ub,
    ) + range_pieces(
        " AND i.treewidth >= ",
        " AND i.treewidth <= ",
        opts.treewidth_lb,
        opts.treewidth_ub,
    ) + opt_u32_pieces(" AND i.iid = ", opts.iid) + opt_bool_pieces(" AND i.planar = ", opts.planar)
        + opt_bool_pieces(" AND i.bipartite = ", opts.bipartite) + regular_pieces(opts.regular)
}

/// Every filter conjunct of a configuration, in emission order.
pub open spec fn filter_pieces(opts: FilterOptions) -> Seq<SqlPiece> {
    base_pieces(opts) + overlay_pieces(opts) + search_pieces(opts.search)
}

/// Appends one range filter over a whitelisted column expression.
fn append_range_u32(
    v: &mut Vec<SqlPiece>,
    ge_frag: &'static str,
    le_frag: &'static str,
    lb: Option<u32>,
    ub: Option<u32>,
)
    requires
        frag_whitelisted(ge_frag@),
        frag_whitelisted(le_frag@),
        pieces_safe(old(v)@),
    ensures
        pieces_safe(final(v)@),
        appended(old(v)@, final(v)@, range_pieces(ge_frag, le_frag, lb, ub)),
{
    let ghost before = v@;
    match lb {
        Some(x) => {
            push_frag(v, ge_frag);
            push_bind(v, SqlPiece::BindU32(x));
        },
        None => {},
    }
    match ub {
        Some(x) => {
            push_frag(v, le_frag);
            push_bind(v, SqlPiece::BindU32(x));
        },
        None => {},
    }
    proof {
        assert(v@.subrange(0, before.len() as int) =~= before);
        assert(pieces_eqv(
            v@.subrange(before.len() as int, v@.len() as int),
            range_pieces(ge_frag, le_frag, lb, ub),
        ));
    }
}

/// Appends the non-overlay conjuncts.
#[verifier::rlimit(100)]
fn append_base_filters(builder: Vec<SqlPiece>, opts: &FilterOptions) -> (r: Vec<SqlPiece>)
    requires
        pieces_safe(builder@),
    ensures
        pieces_safe(r@),
        appended(builder@, r@, base_pieces(*opts)),
{
    let mut v = builder;
    let ghost s0 = v@;
    append_range_u32(&mut v, " AND i.nodes >= ", " AND i.nodes <= ", opts.nodes_lb, opts.nodes_ub);
    let ghost r1 = v@;
    append_range_u32(&mut v, " AND i.edges >= ", " AND i.edges <= ", opts.edges_lb, opts.edges_ub);
    let ghost r2 = v@;
    append_range_u32(&mut v, " AND i.best_score >= ", " AND i.best_score <= ", opts.best_score_lb, opts.best_score_ub);
    let ghost r3 = v@;
    append_range_u32(&mut v, " AND i.min_deg >= ", " AND i.min_deg <= ", opts.min_deg_lb, opts.min_deg_ub);
    let ghost r4 = v@;
    append_range_u32(&mut v, " AND i.max_deg >= ", " AND i.max_deg <= ", opts.max_deg_lb, opts.max_deg_ub);
    let ghost r5 = v@;
    append_range_u32(&mut v, " AND i.num_ccs >= ", " AND i.num_ccs <= ", opts.num_ccs_lb, opts.num_ccs_ub);
    let ghost r6 = v@;
    append_range_u32(&mut v, " AND i.nodes_largest_cc >= ", " AND i.nodes_largest_cc <= ", opts.nodes_largest_cc_lb, opts.nodes_largest_cc_ub);
    let ghost r7 = v@;
    append_range_u32(&mut v, " AND i.diameter >= ", " AND i.diameter <= ", opts.diameter_lb, opts.diameter_ub);
    let ghost r8 = v@;
    append_range_u32(&mut v, " AND i.treewidth >= ", " AND i.treewidth <= ", opts.treewidth_lb, opts.treewidth_ub);
    let ghost r9 = v@;
    proof {
        lemma_appended_chain(s0, r1, r2, range_pieces(" AND i.nodes >= ", " AND i.nodes <= ", opts.nodes_lb, opts.nodes_ub), range_pieces(" AND i.edges >= ", " AND i.edges <= ", opts.edges_lb, opts.edges_ub));
        lemma_appended_chain(s0, r2, r3, range_pieces(" AND i.nodes >= ", " AND i.nodes <= ", opts.nodes_lb, opts.nodes_ub) + range_pieces(" AND i.edges >= ", " AND i.edges <= ", opts.edges_lb, opts.edges_ub), range_pieces(" AND i.best_score >= ", " AND i.best_score <= ", opts.best_score_lb, opts.best_score_ub));
        lemma_appended_chain(s0, r3, r4, range_pieces(" AND i.nodes >= ", " AND i.nodes <= ", opts.nodes_lb, opts.nodes_ub) + range_pieces(" AND i.edges >= ", " AND i.edges <= ", opts.edges_lb, opts.edges_ub) + range_pieces(" AND i.best_score >= ", " AND i.best_score <= ", opts.best_score_lb, opts.best_score_ub), range_pieces(" AND i.min_deg >= ", " AND i.min_deg <= ", opts.min_deg_lb, opts.min_deg_ub));
        lemma_appended_chain(s0, r4, r5, range_pieces(" AND i.nodes >= ", " AND i.nodes <= ", opts.nodes_lb, opts.nodes_ub) + range_pieces(" AND i.edges >= ", " AND i.edges <= ", opts.edges_lb, opts.edges_ub) + range_pieces(" AND i.best_score >= ", " AND i.best_score <= ", opts.best_score_lb, opts.best_score_ub) + range_pieces(" AND i.min_deg >= ", " AND i.min_deg <= ", opts.min_deg_lb, opts.min_deg_ub), range_pieces(" AND i.max_deg >= ", " AND i.max_deg <= ", opts.max_deg_lb, opts.max_deg_ub));
        lemma_appended_chain(s0, r5, r6, range_pieces(" AND i.nodes >= ", " AND i.nodes <= ", opts.nodes_lb, opts.nodes_ub) + range_pieces(" AND i.edges >= ", " AND i.edges <= ", opts.edges_lb, opts.edges_ub) + range_pieces(" AND i.best_score >= ", " AND i.best_score <= ", opts.best_score_lb, opts.best_score_ub) + range_pieces(" AND i.min_deg >= ", " AND i.min_deg <= ", opts.min_deg_lb, opts.min_deg_ub) + range_pieces(" AND i.max_deg >= ", " AND i.max_deg <= ", opts.max_deg_lb, opts.max_deg_ub), range_pieces(" AND i.num_ccs >= ", " AND i.num_ccs <= ", opts.num_ccs_lb, opts.num_ccs_ub));
        lemma_appended_chain(s0, r6, r7, range_pieces(" AND i.nodes >= ", " AND i.nodes <= ", opts.nodes_lb, opts.nodes_ub) + range_pieces(" AND i.edges >= ", " AND i.edges <= ", opts.edges_lb, opts.edges_ub) + range_pieces(" AND i.best_score >= ", " AND i.best_score <= ", opts.best_score_lb, opts.best_score_ub) + range_pieces(" AND i.min_deg >= ", " AND i.min_deg <= ", opts.min_deg_lb, opts.min_deg_ub) + range_pieces(" AND i.max_deg >= ", " AND i.max_deg <= ", opts.max_deg_lb, opts.max_deg_ub) + range_pieces(" AND i.num_ccs >= ", " AND i.num_ccs <= ", opts.num_ccs_lb, opts.num_ccs_ub), range_pieces(" AND i.nodes_largest_cc >= ", " AND i.nodes_largest_cc <= ", opts.nodes_largest_cc_lb, opts.nodes_largest_cc_ub));
        lemma_appended_chain(s0, r7, r8, range_pieces(" AND i.nodes >= ", " AND i.nodes <= ", opts.nodes_lb, opts.nodes_ub) + range_pieces(" AND i.edges >= ", " AND i.edges <= ", opts.edges_lb, opts.edges_ub) + range_pieces(" AND i.best_score >= ", " AND i.best_score <= ", opts.best_score_lb, opts.best_score_ub) + range_pieces(" AND i.min_deg >= ", " AND i.min_deg <= ", opts.min_deg_lb, opts.min_deg_ub) + range_pieces(" AND i.max_deg >= ", " AND i.max_deg <= ", opts.max_deg_lb, opts.max_deg_ub) + range_pieces(" AND i.num_ccs >= ", " AND i.num_ccs <= ", opts.num_ccs_lb, opts.num_ccs_ub) + range_pieces(" AND i.nodes_largest_cc >= ", " AND i.nodes_largest_cc <= ", opts.nodes_largest_cc_lb, opts.nodes_largest_cc_ub), range_pieces(" AND i.diameter >= ", " AND i.diameter <= ", opts.diameter_lb, opts.diameter_ub));
        lemma_appended_chain(s0, r8, r9, range_pieces(" AND i.nodes >= ", " AND i.nodes <= ", opts.nodes_lb, opts.nodes_ub) + range_pieces(" AND i.edges >= ", " AND i.edges <= ", opts.edges_lb, opts.edges_ub) + range_pieces(" AND i.best_score >= ", " AND i.best_score <= ", opts.best_score_lb, opts.best_score_ub) + range_pieces(" AND i.min_deg >= ", " AND i.min_deg <= ", opts.min_deg_lb, opts.min_deg_ub) + range_pieces(" AND i.max_deg >= ", " AND i.max_deg <= ", opts.max_deg_lb, opts.max_deg_ub) + range_pieces(" AND i.num_ccs >= ", " AND i.num_ccs <= ", opts.num_ccs_lb, opts.num_ccs_ub) + range_pieces(" AND i.nodes_largest_cc >= ", " AND i.nodes_largest_cc <= ", opts.nodes_largest_cc_lb, opts.nodes_largest_cc_ub) + range_pieces(" AND i.diameter >= ", " AND i.diameter <= ", opts.diameter_lb, opts.diameter_ub), range_pieces(" AND i.treewidth >= ", " AND i.treewidth <= ", opts.treewidth_lb, opts.treewidth_ub));
    }
    match opts.iid {
        Some(x) => {
            push_frag(&mut v, " AND i.iid = ");
            push_bind(&mut v, SqlPiece::BindU32(x));
        },
        None => {},
    }
    let ghost f1 = v@;
    proof {
        assert(appended(r9, f1, opt_u32_pieces(" AND i.iid = ", opts.iid))) by {
            assert(f1.subrange(0, r9.len() as int) =~= r9);
            assert(pieces_eqv(f1.subrange(r9.len() as int, f1.len() as int), opt_u32_pieces(" AND i.iid = ", opts.iid)));
        }
        lemma_appended_chain(s0, r9, f1, range_pieces(" AND i.nodes >= ", " AND i.nodes <= ", opts.nodes_lb, opts.nodes_ub) + range_pieces(" AND i.edges >= ", " AND i.edges <= ", opts.edges_lb, opts.edges_ub) + range_pieces(" AND i.best_score >= ", " AND i.best_score <= ", opts.best_score_lb, opts.best_score_ub) + range_pieces(" AND i.min_deg >= ", " AND i.min_deg <= ", opts.min_deg_lb, opts.min_deg_ub) + range_pieces(" AND i.max_deg >= ", " AND i.max_deg <= ", opts.max_deg_lb, opts.max_deg_ub) + range_pieces(" AND i.num_ccs >= ", " AND i.num_ccs <= ", opts.num_ccs_lb, opts.num_ccs_ub) + range_pieces(" AND i.nodes_largest_cc >= ", " AND i.nodes_largest_cc <= ", opts.nodes_largest_cc_lb, opts.nodes_largest_cc_ub) + range_pieces(" AND i.diameter >= ", " AND i.diameter <= ", opts.diameter_lb, opts.diameter_ub) + range_pieces(" AND i.treewidth >= ", " AND i.treewidth <= ", opts.treewidth_lb, opts.treewidth_ub), opt_u32_pieces(" AND i.iid = ", opts.iid));
    }
    match opts.planar {
        Some(x) => {
            push_frag(&mut v, " AND i.planar = ");
            push_bind(&mut v, SqlPiece::BindBool(x));
        },
        None => {},
    }
    let ghost f2 = v@;
    proof {
        assert(appended(f1, f2, opt_bool_pieces(" AND i.planar = ", opts.planar))) by {
            assert(f2.subrange(0, f1.len() as int) =~= f1);
            assert(pieces_eqv(f2.subrange(f1.len() as int, f2.len() as int), opt_bool_pieces(" AND i.planar = ", opts.planar)));
        }
        lemma_appended_chain(s0, f1, f2, range_pieces(" AND i.nodes >= ", " AND i.nodes <= ", opts.nodes_lb, opts.nodes_ub) + range_pieces(" AND i.edges >= ", " AND i.edges <= ", opts.edges_lb, opts.edges_ub) + range_pieces(" AND i.best_score >= ", " AND i.best_score <= ", opts.best_score_lb, opts.best_score_ub) + range_pieces(" AND i.min_deg >= ", " AND i.min_deg <= ", opts.min_deg_lb, opts.min_deg_ub) + range_pieces(" AND i.max_deg >= ", " AND i.max_deg <= ", opts.max_deg_lb, opts.max_deg_ub) + range_pieces(" AND i.num_ccs >= ", " AND i.num_ccs <= ", opts.num_ccs_lb, opts.num_ccs_ub) + range_pieces(" AND i.nodes_largest_cc >= ", " AND i.nodes_largest_cc <= ", opts.nodes_largest_cc_lb, opts.nodes_largest_cc_ub) + range_pieces(" AND i.diameter >= ", " AND i.diameter <= ", opts.diameter_lb, opts.diameter_ub) + range_pieces(" AND i.treewidth >= ", " AND i.treewidth <= ", opts.treewidth_lb, opts.treewidth_ub) + opt_u32_pieces(" AND i.iid = ", opts.iid), opt_bool_pieces(" AND i.planar = ", opts.planar));
    }
    match opts.bipartite {
        Some(x) => {
            push_frag(&mut v, " AND i.bipartite = ");
            push_bind(&mut v, SqlPiece::BindBool(x));
        },
        None => {},
    }
    let ghost f3 = v@;
    proof {
        assert(appended(f2, f3, opt_bool_pieces(" AND i.bipartite = ", opts.bipartite))) by {
            assert(f3.subrange(0, f2.len() as int) =~= f2);
            assert(pieces_eqv(f3.subrange(f2.len() as int, f3.len() as int), opt_bool_pieces(" AND i.bipartite = ", opts.bipartite)));
        }
        lemma_appended_chain(s0, f2, f3, range_pieces(" AND i.nodes >= ", " AND i.nodes <= ", opts.nodes_lb, opts.nodes_ub) + range_pieces(" AND i.edges >= ", " AND i.edges <= ", opts.edges_lb, opts.edges_ub) + range_pieces(" AND i.best_score >= ", " AND i.best_score <= ", opts.best_score_lb, opts.best_score_ub) + range_pieces(" AND i.min_deg >= ", " AND i.min_deg <= ", opts.min_deg_lb, opts.min_deg_ub) + range_pieces(" AND i.max_deg >= ", " AND i.max_deg <= ", opts.max_deg_lb, opts.max_deg_ub) + range_pieces(" AND i.num_ccs >= ", " AND i.num_ccs <= ", opts.num_ccs_lb, opts.num_ccs_ub) + range_pieces(" AND i.nodes_largest_cc >= ", " AND i.nodes_largest_cc <= ", opts.nodes_largest_cc_lb, opts.nodes_largest_cc_ub) + range_pieces(" AND i.diameter >= ", " AND i.diameter <= ", opts.diameter_lb, opts.diameter_ub) + range_pieces(" AND i.treewidth >= ", " AND i.treewidth <= ", opts.treewidth_lb, opts.treewidth_ub) + opt_u32_pieces(" AND i.iid = ", opts.iid) + opt_bool_pieces(" AND i.planar = ", opts.planar), opt_bool_pieces(" AND i.bipartite = ", opts.bipartite));
    }
    match opts.regular {
        Some(x) => {
            if x {
                push_frag(&mut v, " AND i.min_deg = i.max_deg ");
            } else {
                push_frag(&mut v, " AND i.min_deg != i.max_deg ");
            }
        },
        None => {},
    }
    let ghost f4 = v@;
    proof {
        assert(appended(f3, f4, regular_pieces(opts.regular))) by {
            assert(f4.subrange(0, f3.len() as int) =~= f3);
            assert(pieces_eqv(f4.subrange(f3.len() as int, f4.len() as int), regular_pieces(opts.regular)));
        }
        lemma_appended_chain(s0, f3, f4, range_pieces(" AND i.nodes >= ", " AND i.nodes <= ", opts.nodes_lb, opts.nodes_ub) + range_pieces(" AND i.edges >= ", " AND i.edges <= ", opts.edges_lb, opts.edges_ub) + range_pieces(" AND i.best_score >= ", " AND i.best_score <= ", opts.best_score_lb, opts.best_score_ub) + range_pieces(" AND i.min_deg >= ", " AND i.min_deg <= ", opts.min_deg_lb, opts.min_deg_ub) + range_pieces(" AND i.max_deg >= ", " AND i.max_deg <= ", opts.max_deg_lb, opts.max_deg_ub) + range_pieces(" AND i.num_ccs >= ", " AND i.num_ccs <= ", opts.num_ccs_lb, opts.num_ccs_ub) + range_pieces(" AND i.nodes_largest_cc >= ", " AND i.nodes_largest_cc <= ", opts.nodes_largest_cc_lb, opts.nodes_largest_cc_ub) + range_pieces(" AND i.diameter >= ", " AND i.diameter <= ", opts.diameter_lb, opts.diameter_ub) + range_pieces(" AND i.treewidth >= ", " AND i.treewidth <= ", opts.treewidth_lb, opts.treewidth_ub) + opt_u32_pieces(" AND i.iid = ", opts.iid) + opt_bool_pieces(" AND i.planar = ", opts.planar) + opt_bool_pieces(" AND i.bipartite = ", opts.bipartite), regular_pieces(opts.regular));
    }
    proof {
        assert(range_pieces(" AND i.nodes >= ", " AND i.nodes <= ", opts.nodes_lb, opts.nodes_ub) + range_pieces(" AND i.edges >= ", " AND i.edges <= ", opts.edges_lb, opts.edges_ub) + range_pieces(" AND i.best_score >= ", " AND i.best_score <= ", opts.best_score_lb, opts.best_score_ub) + range_pieces(" AND i.min_deg >= ", " AND i.min_deg <= ", opts.min_deg_lb, opts.min_deg_ub) + range_pieces(" AND i.max_deg >= ", " AND i.max_deg <= ", opts.max_deg_lb, opts.max_deg_ub) + range_pieces(" AND i.num_ccs >= ", " AND i.num_ccs <= ", opts.num_ccs_lb, opts.num_ccs_ub) + range_pieces(" AND i.nodes_largest_cc >= ", " AND i.nodes_largest_cc <= ", opts.nodes_largest_cc_lb, opts.nodes_largest_cc_ub) + range_pieces(" AND i.diameter >= ", " AND i.diameter <= ", opts.diameter_lb, opts.diameter_ub) + range_pieces(" AND i.treewidth >= ", " AND i.treewidth <= ", opts.treewidth_lb, opts.treewidth_ub) + opt_u32_pieces(" AND i.iid = ", opts.iid) + opt_bool_pieces(" AND i.planar = ", opts.planar) + opt_bool_pieces(" AND i.bipartite = ", opts.bipartite) + regular_pieces(opts.regular) =~= base_pieces(*opts));
    }
    v
}

/// Appends the overlay conjuncts.
#[verifier::rlimit(100)]
fn append_overlay_filters(builder: Vec<SqlPiece>, opts: &FilterOptions) -> (r: Vec<SqlPiece>)
    requires
        pieces_safe(builder@),
    ensures
        pieces_safe(r@),
        appended(builder@, r@, overlay_pieces(*opts)),
{
    let mut v = builder;
    let ghost s0h = v@;
    match opts.run {
        Some(run) => {
            push_frag(&mut v, " AND s.sr_uuid = UNHEX(");
            push_bind(&mut v, SqlPiece::BindUuid(run));
            push_frag(&mut v, ")");
            let ghost o1 = v@;
            proof {
                assert(appended(s0h, o1, seq![
                    SqlPiece::Frag(" AND s.sr_uuid = UNHEX("),
                    SqlPiece::BindUuid(run),
                    SqlPiece::Frag(")"),
                ])) by {
                    assert(o1.subrange(0, s0h.len() as int) =~= s0h);
                    assert(pieces_eqv(o1.subrange(s0h.len() as int, o1.len() as int), seq![
                        SqlPiece::Frag(" AND s.sr_uuid = UNHEX("),
                        SqlPiece::BindUuid(run),
                        SqlPiece::Frag(")"),
                    ]));
                }
            }
            append_range_u32(
                &mut v,
                " AND s.score >= ",
                " AND s.score <= ",
                opts.score_lb,
                opts.score_ub,
            );
            let ghost o2 = v@;
            append_range_u32(
                &mut v,
                " AND s.score - i.best_score >= ",
                " AND s.score - i.best_score <= ",
                opts.score_diff_lb,
                opts.score_diff_ub,
            );
            let ghost o3 = v@;
            match opts.seconds_computed_lb {
                Some(x) => {
                    push_frag(&mut v, " AND s.seconds_computed >= ");
                    push_bind(&mut v, SqlPiece::BindU64(x));
                },
                None => {},
            }
            let ghost o4a = v@;
            proof {
                assert(appended(o3, o4a, opt_u64_pieces(" AND s.seconds_computed >= ", opts.seconds_computed_lb))) by {
                    assert(o4a.subrange(0, o3.len() as int) =~= o3);
                    assert(pieces_eqv(o4a.subrange(o3.len() as int, o4a.len() as int), opt_u64_pieces(" AND s.seconds_computed >= ", opts.seconds_computed_lb)));
                }
            }
            match opts.seconds_computed_ub {
                Some(x) => {
                    push_frag(&mut v, " AND s.seconds_computed <= ");
                    push_bind(&mut v, SqlPiece::BindU64(x));
                },
                None => {},
            }
            let ghost o4 = v@;
            proof {
                assert(appended(o4a, o4, opt_u64_pieces(" AND s.seconds_computed <= ", opts.seconds_computed_ub))) by {
                    assert(o4.subrange(0, o4a.len() as int) =~= o4a);
                    assert(pieces_eqv(o4.subrange(o4a.len() as int, o4.len() as int), opt_u64_pieces(" AND s.seconds_computed <= ", opts.seconds_computed_ub)));
                }
            }
            match opts.result_status {
                ResultStatusFilter::NoFilter => {},
                ResultStatusFilter::Valid => {
                    push_frag(&mut v, " AND s.score IS NOT NULL ");
                },
                ResultStatusFilter::Invalid => {
                    push_frag(&mut v, " AND s.score IS NULL ");
                },
                ResultStatusFilter::Optimal => {
                    push_frag(&mut v, " AND i.best_score = s.score ");
                },
                ResultStatusFilter::Suboptimal => {
                    push_frag(&mut v, " AND i.best_score < s.score ");
                },
                ResultStatusFilter::Incomplete => {
                    push_frag(&mut v, " AND s.error_code = ");
                    push_bind(&mut v, SqlPiece::BindU32(6));
                },
                ResultStatusFilter::Timeout => {
                    push_frag(&mut v, " AND s.error_code = ");
                    push_bind(&mut v, SqlPiece::BindU32(4));
                },
                ResultStatusFilter::Infeasible => {
                    push_frag(&mut v, " AND s.error_code = ");
                    push_bind(&mut v, SqlPiece::BindU32(2));
                },
                ResultStatusFilter::Error => {
                    push_frag(&mut v, " AND s.error_code = ");
                    push_bind(&mut v, SqlPiece::BindU32(3));
                },
            }
            proof {
                assert(appended(o4, v@, status_pieces(opts.result_status))) by {
                    assert(v@.subrange(0, o4.len() as int) =~= o4);
                    assert(pieces_eqv(v@.subrange(o4.len() as int, v@.len() as int), status_pieces(opts.result_status)));
                }
                let p1 = seq![
                    SqlPiece::Frag(" AND s.sr_uuid = UNHEX("),
                    SqlPiece::BindUuid(run),
                    SqlPiece::Frag(")"),
                ];
                let p2 = range_pieces(" AND s.score >= ", " AND s.score <= ", opts.score_lb, opts.score_ub);
                let p3 = range_pieces(
                    " AND s.score - i.best_score >= ",
                    " AND s.score - i.best_score <= ",
                    opts.score_diff_lb,
                    opts.score_diff_ub,
                );
                let p4a = opt_u64_pieces(" AND s.seconds_computed >= ", opts.seconds_computed_lb);
                let p4b = opt_u64_pieces(" AND s.seconds_computed <= ", opts.seconds_computed_ub);
                let p5 = status_pieces(opts.result_status);
                lemma_appended_chain(s0h, o1, o2, p1, p2);
                lemma_appended_chain(s0h, o2, o3, p1 + p2, p3);
                lemma_appended_chain(s0h, o3, o4a, p1 + p2 + p3, p4a);
                lemma_appended_chain(s0h, o4a, o4, p1 + p2 + p3 + p4a, p4b);
                lemma_appended_chain(s0h, o4, v@, p1 + p2 + p3 + p4a + p4b, p5);
                assert(p1 + p2 + p3 + p4a + p4b + p5 =~= overlay_pieces(*opts));
            }
        },
        None => {},
    }
    proof {
        if opts.run is None {
            assert(appended(s0h, v@, overlay_pieces(*opts))) by {
                assert(v@.subrange(0, s0h.len() as int) =~= s0h);
                assert(v@.subrange(s0h.len() as int, v@.len() as int) =~= Seq::<SqlPiece>::empty());
            }
        }
    }
    v
}

/// Appends the free-text search conjunct.
#[verifier::rlimit(100)]
fn append_search_filter(builder: Vec<SqlPiece>, opts: &FilterOptions) -> (r: Vec<SqlPiece>)
    requires
        pieces_safe(builder@),
    ensures
        pieces_safe(r@),
        appended(builder@, r@, search_pieces(opts.search)),
{
    let mut v = builder;
    let ghost s0s = v@;
    match &opts.search {
        Some(search) => {
            push_frag(
                &mut v,
                " AND (MATCH (i.`name`, i.`description`, i.`submitted_by`) AGAINST (",
            );
            push_bind(&mut v, SqlPiece::BindBytes(crate::store::bytes_copy(search)));
            let ghost w0 = v@;
            proof {
                assert(appended(s0s, w0, seq![
                    SqlPiece::Frag(" AND (MATCH (i.`name`, i.`description`, i.`submitted_by`) AGAINST ("),
                    SqlPiece::BindBytes(*search),
                ])) by {
                    assert(w0.subrange(0, s0s.len() as int) =~= s0s);
                    assert(pieces_eqv(w0.subrange(s0s.len() as int, w0.len() as int), seq![
                        SqlPiece::Frag(" AND (MATCH (i.`name`, i.`description`, i.`submitted_by`) AGAINST ("),
                        SqlPiece::BindBytes(*search),
                    ]));
                }
            }
            let toks = crate::text::split_ws_exec(search);
            let ghost gtoks = split_ws(search@);
            let mut t: usize = 0;
            proof {
                assert(toks.deep_view() == gtoks);
                assert(appended(w0, v@, word_pieces(gtoks.subrange(0, 0)))) by {
                    assert(word_pieces(gtoks.subrange(0, 0)) =~= Seq::<SqlPiece>::empty());
                    assert(v@.subrange(0, w0.len() as int) =~= w0);
                    assert(v@.subrange(w0.len() as int, v@.len() as int) =~= Seq::<SqlPiece>::empty());
                }
            }
            while t < toks.len()
                invariant
                    0 <= t <= gtoks.len(),
                    toks.deep_view() == gtoks,
                    pieces_safe(v@),
                    appended(w0, v@, word_pieces(gtoks.subrange(0, t as int))),
                decreases gtoks.len() - t,
            {
                let ghost pre = gtoks.subrange(0, t as int);
                let ghost post = gtoks.subrange(0, t as int + 1);
                proof {
                    assert(post.drop_last() =~= pre);
                    assert(post.last() == gtoks[t as int]);
                    assert(toks@[t as int]@ =~= gtoks[t as int]);
                }
                let ghost before_tok = v@;
                match crate::text::parse_u32(&toks[t]) {
                    Some(number) => {
                        push_frag(&mut v, " OR i.iid = ");
                        push_bind(&mut v, SqlPiece::BindU32(number));
                    },
                    None => {},
                }
                proof {
                    assert(appended(before_tok, v@, token_pieces(gtoks[t as int]))) by {
                        assert(v@.subrange(0, before_tok.len() as int) =~= before_tok);
                        assert(pieces_eqv(
                            v@.subrange(before_tok.len() as int, v@.len() as int),
                            token_pieces(gtoks[t as int]),
                        ));
                    }
                    lemma_appended_chain(
                        w0,
                        before_tok,
                        v@,
                        word_pieces(pre),
                        token_pieces(gtoks[t as int]),
                    );
                    assert(word_pieces(post) == word_pieces(pre) + token_pieces(gtoks[t as int]));
                }
                t = t + 1;
            }
            let ghost w1 = v@;
            push_frag(&mut v, ") ");
            proof {
                assert(gtoks.subrange(0, t as int) =~= gtoks);
                assert(appended(w1, v@, seq![SqlPiece::Frag(") ")])) by {
                    assert(v@.subrange(0, w1.len() as int) =~= w1);
                    assert(pieces_eqv(v@.subrange(w1.len() as int, v@.len() as int), seq![
                        SqlPiece::Frag(") "),
                    ]));
                }
                lemma_appended_chain(s0s, w0, w1, seq![
                    SqlPiece::Frag(" AND (MATCH (i.`name`, i.`description`, i.`submitted_by`) AGAINST ("),
                    SqlPiece::BindBytes(*search),
                ], word_pieces(gtoks));
                lemma_appended_chain(s0s, w1, v@, seq![
                    SqlPiece::Frag(" AND (MATCH (i.`name`, i.`description`, i.`submitted_by`) AGAINST ("),
                    SqlPiece::BindBytes(*search),
                ] + word_pieces(gtoks), seq![SqlPiece::Frag(") ")]);
                assert(seq![
                    SqlPiece::Frag(" AND (MATCH (i.`name`, i.`description`, i.`submitted_by`) AGAINST ("),
                    SqlPiece::BindBytes(*search),
                ] + word_pieces(gtoks) + seq![SqlPiece::Frag(") ")] =~= search_pieces(opts.search));
            }
        },
        None => {},
    }
    proof {
        if opts.search is None {
            assert(appended(s0s, v@, search_pieces(opts.search))) by {
                assert(v@.subrange(0, s0s.len() as int) =~= s0s);
                assert(v@.subrange(s0s.len() as int, v@.len() as int) =~= Seq::<SqlPiece>::empty());
            }
        }
    }
    v
}

/// Appends every active filter of the configuration: exactly one conjunct
/// per set option, as whitelisted fragments with typed binds. User input
/// never becomes query text.
pub fn append_filters_to_query_builder(builder: Vec<SqlPiece>, opts: &FilterOptions) -> (r: Vec<
    SqlPiece,
>)
    requires
        pieces_safe(builder@),
    ensures
        pieces_safe(r@),
        appended(builder@, r@, filter_pieces(*opts)),
{
    let ghost s0 = builder@;
    let v1 = append_base_filters(builder, opts);
    let ghost g1 = v1@;
    let v2 = append_overlay_filters(v1, opts);
    let ghost g2 = v2@;
    let v3 = append_search_filter(v2, opts);
    proof {
        lemma_appended_chain(s0, g1, g2, base_pieces(*opts), overlay_pieces(*opts));
        lemma_appended_chain(
            s0,
            g2,
            v3@,
            base_pieces(*opts) + overlay_pieces(*opts),
            search_pieces(opts.search),
        );
    }
    v3
}

/// The page offset the listing binds: `(page − 1) · limit`, clamped.
pub open spec fn page_offset(opts: FilterOptions) -> u64 {
    let page = if opts.page >= 1 {
        (opts.page - 1) as int
    } else {
        0
    };
    if page * opts.limit as int > u64::MAX {
        u64::MAX
    } else {
        (page * opts.limit as int) as u64
    }
}

/// The opening of the count query.
pub open spec fn count_prefix(opts: FilterOptions) -> Seq<SqlPiece> {
    seq![SqlPiece::Frag("SELECT COUNT(*) as cnt FROM `Instance` i ")] + (if opts.run is Some {
        seq![SqlPiece::Frag(" JOIN Solution s ON i.iid = s.instance_iid ")]
    } else {
        seq![]
    }) + (match opts.tag {
        Option::Some(tid) => seq![
            SqlPiece::Frag(" JOIN InstanceTag it ON i.iid = it.instance_iid WHERE it.tag_tid = "),
            SqlPiece::BindU32(tid),
        ],
        Option::None => seq![SqlPiece::Frag(" WHERE 1=1 ")],
    })
}

/// The count query: the first of the three shapes.
pub fn count_query_pieces(opts: &FilterOptions) -> (r: Vec<SqlPiece>)
    ensures
        pieces_safe(r@),
        pieces_eqv(r@, count_prefix(*opts) + filter_pieces(*opts)),
{
    let mut v: Vec<SqlPiece> = Vec::new();
    push_frag(&mut v, "SELECT COUNT(*) as cnt FROM `Instance` i ");
    if opts.run.is_some() {
        push_frag(&mut v, " JOIN Solution s ON i.iid = s.instance_iid ");
    }
    match opts.tag {
        Some(tid) => {
            push_frag(&mut v, " JOIN InstanceTag it ON i.iid = it.instance_iid WHERE it.tag_tid = ");
            push_bind(&mut v, SqlPiece::BindU32(tid));
        },
        None => {
            push_frag(&mut v, " WHERE 1=1 ");
        },
    }
    proof {
        assert(pieces_eqv(v@, count_prefix(*opts)));
    }
    let ghost s_pre = v@;
    let r = append_filters_to_query_builder(v, opts);
    proof {
        lemma_eqv_extend(s_pre, r@, count_prefix(*opts), filter_pieces(*opts));
    }
    r
}

/// The ordering tail shared by the listing shapes.
pub open spec fn order_pieces(opts: FilterOptions) -> Seq<SqlPiece> {
    seq![SqlPiece::Frag(" ORDER BY ")] + seq![sort_field_piece(opts.sort_by)] + (
    match opts.sort_direction {
        SortDirection::Desc => seq![SqlPiece::Frag(" DESC ")],
        SortDirection::Asc => seq![SqlPiece::Frag(" ASC ")],
    })
}

/// The whitelisted column expression of a sort key, as a piece.
pub open spec fn sort_field_piece(s: SortBy) -> SqlPiece {
    match s {
        SortBy::Id => SqlPiece::Frag("iid"),
        SortBy::Name => SqlPiece::Frag("name"),
        SortBy::Nodes => SqlPiece::Frag("nodes"),
        SortBy::Edges => SqlPiece::Frag("edges"),
        SortBy::CreatedAt => SqlPiece::Frag("i.created_at"),
        SortBy::BestScore => SqlPiece::Frag("best_score"),
        SortBy::Difficulty => SqlPiece::Frag("best_score"),
        SortBy::MinDeg => SqlPiece::Frag("min_deg"),
        SortBy::MaxDeg => SqlPiece::Frag("max_deg"),
        SortBy::AvgDeg => SqlPiece::Frag("edges / nodes"),
        SortBy::NumCCs => SqlPiece::Frag("num_ccs"),
        SortBy::NodesLargestCC => SqlPiece::Frag("nodes_largest_cc"),
        SortBy::Diameter => SqlPiece::Frag("diameter"),
        SortBy::Bipartite => SqlPiece::Frag("bipartite"),
        SortBy::Planar => SqlPiece::Frag("planar"),
        SortBy::Treewidth => SqlPiece::Frag("treewidth"),
        SortBy::Regular => SqlPiece::Frag("min_deg=max_deg"),
        SortBy::Score => SqlPiece::Frag("s.score"),
        SortBy::ScoreDiff => SqlPiece::Frag("s.score - i.best_score"),
        SortBy::SecondsComputed => SqlPiece::Frag("s.seconds_computed"),
        SortBy::ErrorCode => SqlPiece::Frag("s.error_code"),
    }
}

/// Appends the ORDER BY tail.
fn push_order(v: &mut Vec<SqlPiece>, opts: &FilterOptions)
    requires
        pieces_safe(old(v)@),
    ensures
        pieces_safe(final(v)@),
        appended(old(v)@, final(v)@, order_pieces(*opts)),
{
    let ghost before = v@;
    push_frag(v, " ORDER BY ");
    let field = opts.sort_by.to_sql_fields();
    proof {
        assert(frag_whitelisted(field@));
    }
    push_frag(v, field);
    match opts.sort_direction {
        SortDirection::Desc => push_frag(v, " DESC "),
        SortDirection::Asc => push_frag(v, " ASC "),
    }
    proof {
        assert(v@.subrange(0, before.len() as int) =~= before);
        assert(piece_eqv(SqlPiece::Frag(field), sort_field_piece(opts.sort_by)));
        assert(pieces_eqv(
            v@.subrange(before.len() as int, v@.len() as int),
            order_pieces(*opts),
        ));
    }
}

/// The opening of the listing query: the projected columns, the overlay
/// join when a run is named, and the tag join that feeds the tag list.
pub open spec fn list_prefix(opts: FilterOptions) -> Seq<SqlPiece> {
    seq![
        SqlPiece::Frag(
            "SELECT i.iid, i.nodes, i.edges, i.name, i.description, i.best_score, i.min_deg, i.max_deg, i.num_ccs, i.nodes_largest_cc, i.diameter, i.treewidth, i.planar, i.bipartite, GROUP_CONCAT(tag_tid) as tags ",
        ),
    ] + (if opts.run is Some {
        seq![
            SqlPiece::Frag(
                ", HEX(s.solution_hash) as solution_hash, s.error_code, s.score, s.seconds_computed FROM `Instance` i ",
            ),
            SqlPiece::Frag(" JOIN Solution s ON i.iid = s.instance_iid "),
        ]
    } else {
        seq![
            SqlPiece::Frag(
                ", NULL as solution_hash, NULL as error_code, NULL as score, NULL as seconds_computed FROM `Instance` i ",
            ),
        ]
    }) + (match opts.tag {
        Option::Some(tid) => seq![
            SqlPiece::Frag(" JOIN InstanceTag it ON i.iid = it.instance_iid WHERE it.tag_tid = "),
            SqlPiece::BindU32(tid),
        ],
        Option::None => seq![
            SqlPiece::Frag(" JOIN InstanceTag it ON i.iid = it.instance_iid WHERE 1=1 "),
        ],
    })
}

/// The closing of the listing query: grouping, order and page window.
pub open spec fn list_suffix(opts: FilterOptions) -> Seq<SqlPiece> {
    seq![SqlPiece::Frag(" GROUP BY i.iid ")] + (if opts.run is Some {
        seq![SqlPiece::Frag(", s.sr_uuid")]
    } else {
        seq![]
    }) + order_pieces(opts) + seq![
        SqlPiece::Frag("LIMIT "),
        SqlPiece::BindU64(opts.limit as u64),
        SqlPiece::Frag(" OFFSET "),
        SqlPiece::BindU64(page_offset(opts)),
    ]
}

/// The listing query: joins, filters, grouping, order and page window.
#[verifier::rlimit(100)]
pub fn list_query_pieces(opts: &FilterOptions) -> (r: Vec<SqlPiece>)
    ensures
        pieces_safe(r@),
        pieces_eqv(r@, list_prefix(*opts) + filter_pieces(*opts) + list_suffix(*opts)),
{
    let mut v: Vec<SqlPiece> = Vec::new();
    push_frag(
        &mut v,
        "SELECT i.iid, i.nodes, i.edges, i.name, i.description, i.best_score, i.min_deg, i.max_deg, i.num_ccs, i.nodes_largest_cc, i.diameter, i.treewidth, i.planar, i.bipartite, GROUP_CONCAT(tag_tid) as tags ",
    );
    if opts.run.is_some() {
        push_frag(
            &mut v,
            ", HEX(s.solution_hash) as solution_hash, s.error_code, s.score, s.seconds_computed FROM `Instance` i ",
        );
        push_frag(&mut v, " JOIN Solution s ON i.iid = s.instance_iid ");
    } else {
        push_frag(
            &mut v,
            ", NULL as solution_hash, NULL as error_code, NULL as score, NULL as seconds_computed FROM `Instance` i ",
        );
    }
    match opts.tag {
        Some(tid) => {
            push_frag(&mut v, " JOIN InstanceTag it ON i.iid = it.instance_iid WHERE it.tag_tid = ");
            push_bind(&mut v, SqlPiece::BindU32(tid));
        },
        None => {
            push_frag(&mut v, " JOIN InstanceTag it ON i.iid = it.instance_iid WHERE 1=1 ");
        },
    }
    proof {
        assert(pieces_eqv(v@, list_prefix(*opts)));
    }
    let ghost s_pre = v@;
    let mut v2 = append_filters_to_query_builder(v, opts);
    proof {
        lemma_eqv_extend(s_pre, v2@, list_prefix(*opts), filter_pieces(*opts));
    }
    let ghost s_filters = v2@;
    push_frag(&mut v2, " GROUP BY i.iid ");
    if opts.run.is_some() {
        push_frag(&mut v2, ", s.sr_uuid");
    }
    let ghost s_group = v2@;
    proof {
        assert(appended(
            s_filters,
            s_group,
            seq![SqlPiece::Frag(" GROUP BY i.iid ")] + (if opts.run is Some {
                seq![SqlPiece::Frag(", s.sr_uuid")]
            } else {
                seq![]
            }),
        )) by {
            assert(s_group.subrange(0, s_filters.len() as int) =~= s_filters);
            assert(pieces_eqv(
                s_group.subrange(s_filters.len() as int, s_group.len() as int),
                seq![SqlPiece::Frag(" GROUP BY i.iid ")] + (if opts.run is Some {
                    seq![SqlPiece::Frag(", s.sr_uuid")]
                } else {
                    seq![]
                }),
            ));
        }
    }
    push_order(&mut v2, opts);
    let ghost s_order = v2@;
    push_frag(&mut v2, "LIMIT ");
    push_bind(&mut v2, SqlPiece::BindU64(opts.limit as u64));
    push_frag(&mut v2, " OFFSET ");
    let page = if opts.page >= 1 {
        opts.page - 1
    } else {
        0
    };
    proof {
        assert((page as u128) * (opts.limit as u128) <= 0xFFFF_FFFF_FFFF_FFFFu128
            * 0xFFFF_FFFF_FFFF_FFFFu128) by (nonlinear_arith)
            requires
                (page as u128) <= 0xFFFF_FFFF_FFFF_FFFFu128,
                (opts.limit as u128) <= 0xFFFF_FFFF_FFFF_FFFFu128,
        {}
    }
    let offset128 = page as u128 * opts.limit as u128;
    let offset: u64 = if offset128 > u64::MAX as u128 {
        u64::MAX
    } else {
        offset128 as u64
    };
    push_bind(&mut v2, SqlPiece::BindU64(offset));
    proof {
        assert(offset == page_offset(*opts));
        assert(appended(
            s_order,
            v2@,
            seq![
                SqlPiece::Frag("LIMIT "),
                SqlPiece::BindU64(opts.limit as u64),
                SqlPiece::Frag(" OFFSET "),
                SqlPiece::BindU64(page_offset(*opts)),
            ],
        )) by {
            assert(v2@.subrange(0, s_order.len() as int) =~= s_order);
            assert(pieces_eqv(
                v2@.subrange(s_order.len() as int, v2@.len() as int),
                seq![
                    SqlPiece::Frag("LIMIT "),
                    SqlPiece::BindU64(opts.limit as u64),
                    SqlPiece::Frag(" OFFSET "),
                    SqlPiece::BindU64(page_offset(*opts)),
                ],
            ));
        }
        lemma_appended_chain(
            s_filters,
            s_group,
            s_order,
            seq![SqlPiece::Frag(" GROUP BY i.iid ")] + (if opts.run is Some {
                seq![SqlPiece::Frag(", s.sr_uuid")]
            } else {
                seq![]
            }),
            order_pieces(*opts),
        );
        lemma_appended_chain(
            s_filters,
            s_order,
            v2@,
            (seq![SqlPiece::Frag(" GROUP BY i.iid ")] + (if opts.run is Some {
                seq![SqlPiece::Frag(", s.sr_uuid")]
            } else {
                seq![]
            })) + order_pieces(*opts),
            seq![
                SqlPiece::Frag("LIMIT "),
                SqlPiece::BindU64(opts.limit as u64),
                SqlPiece::Frag(" OFFSET "),
                SqlPiece::BindU64(page_offset(*opts)),
            ],
        );
        assert((seq![SqlPiece::Frag(" GROUP BY i.iid ")] + (if opts.run is Some {
            seq![SqlPiece::Frag(", s.sr_uuid")]
        } else {
            seq![]
        })) + order_pieces(*opts) + seq![
            SqlPiece::Frag("LIMIT "),
            SqlPiece::BindU64(opts.limit as u64),
            SqlPiece::Frag(" OFFSET "),
            SqlPiece::BindU64(page_offset(*opts)),
        ] =~= list_suffix(*opts));
        lemma_eqv_extend(
            s_filters,
            v2@,
            list_prefix(*opts) + filter_pieces(*opts),
            (seq![SqlPiece::Frag(" GROUP BY i.iid ")] + (if opts.run is Some {
                seq![SqlPiece::Frag(", s.sr_uuid")]
            } else {
                seq![]
            })) + order_pieces(*opts) + seq![
                SqlPiece::Frag("LIMIT "),
                SqlPiece::BindU64(opts.limit as u64),
                SqlPiece::Frag(" OFFSET "),
                SqlPiece::BindU64(page_offset(*opts)),
            ],
        );
        assert(list_prefix(*opts) + filter_pieces(*opts) + ((seq![
            SqlPiece::Frag(" GROUP BY i.iid "),
        ] + (if opts.run is Some {
            seq![SqlPiece::Frag(", s.sr_uuid")]
        } else {
            seq![]
        })) + order_pieces(*opts) + seq![
            SqlPiece::Frag("LIMIT "),
            SqlPiece::BindU64(opts.limit as u64),
            SqlPiece::Frag(" OFFSET "),
            SqlPiece::BindU64(page_offset(*opts)),
        ]) =~= list_prefix(*opts) + filter_pieces(*opts) + list_suffix(*opts));
    }
    v2
}

/// The opening of the id-list query.
pub open spec fn id_list_prefix(opts: FilterOptions) -> Seq<SqlPiece> {
    seq![SqlPiece::Frag("SELECT i.iid FROM `Instance` i ")] + (if opts.run is Some {
        seq![SqlPiece::Frag(" JOIN Solution s ON i.iid = s.instance_iid ")]
    } else {
        seq![]
    }) + (match opts.tag {
        Option::Some(tid) => seq![
            SqlPiece::Frag(" JOIN InstanceTag it ON i.iid = it.instance_iid WHERE it.tag_tid = "),
            SqlPiece::BindU32(tid),
        ],
        Option::None => seq![SqlPiece::Frag(" WHERE 1=1 ")],
    })
}

/// The id-list query: the bulk download of matching instance ids.
pub fn id_list_query_pieces(opts: &FilterOptions) -> (r: Vec<SqlPiece>)
    ensures
        pieces_safe(r@),
        pieces_eqv(r@, id_list_prefix(*opts) + filter_pieces(*opts) + order_pieces(*opts)),
{
    let mut v: Vec<SqlPiece> = Vec::new();
    push_frag(&mut v, "SELECT i.iid FROM `Instance` i ");
    if opts.run.is_some() {
        push_frag(&mut v, " JOIN Solution s ON i.iid = s.instance_iid ");
    }
    match opts.tag {
        Some(tid) => {
            push_frag(&mut v, " JOIN InstanceTag it ON i.iid = it.instance_iid WHERE it.tag_tid = ");
            push_bind(&mut v, SqlPiece::BindU32(tid));
        },
        None => {
            push_frag(&mut v, " WHERE 1=1 ");
        },
    }
    proof {
        assert(pieces_eqv(v@, id_list_prefix(*opts)));
    }
    let ghost s_pre = v@;
    let mut v2 = append_filters_to_query_builder(v, opts);
    proof {
        lemma_eqv_extend(s_pre, v2@, id_list_prefix(*opts), filter_pieces(*opts));
    }
    let ghost s_filters = v2@;
    push_order(&mut v2, opts);
    proof {
        lemma_eqv_extend(
            s_filters,
            v2@,
            id_list_prefix(*opts) + filter_pieces(*opts),
            order_pieces(*opts),
        );
    }
    v2
}

} // verus!
