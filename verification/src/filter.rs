//! The typed filter configuration of the listing endpoints: pagination,
//! sorting, range and boolean facets, free-text search, and the optional
//! solver-run overlay, validated in one place.
use vstd::prelude::*;

use crate::err::{CoreError, ErrorKind};
use crate::store::{InstanceRow, SolutionRow, SolverResultType};

verus! {

/// Result-status facet of the solver overlay.
#[derive(Debug, Clone, Copy, PartialEq, Eq, Structural)]
pub enum ResultStatusFilter {
    NoFilter,
    Valid,
    Invalid,
    Optimal,
    Suboptimal,
    Incomplete,
    Timeout,
    Infeasible,
    Error,
}

impl Default for ResultStatusFilter {
    fn default() -> (r: Self)
        ensures
            r == ResultStatusFilter::NoFilter,
    {
        ResultStatusFilter::NoFilter
    }
}

/// The closed set of sort keys.
#[derive(Debug, Clone, Copy, PartialEq, Eq, Structural)]
pub enum SortBy {
    Id,
    Name,
    Nodes,
    Edges,
    CreatedAt,
    BestScore,
    Difficulty,
    MinDeg,
    MaxDeg,
    AvgDeg,
    NumCCs,
    NodesLargestCC,
    Diameter,
    Treewidth,
    Bipartite,
    Planar,
    Regular,
    Score,
    ScoreDiff,
    SecondsComputed,
    ErrorCode,
}

impl Default for SortBy {
    fn default() -> (r: Self)
        ensures
            r == SortBy::Id,
    {
        SortBy::Id
    }
}

/// The sort keys that exist only under a solver-run overlay.
pub open spec fn overlay_only_sort(s: SortBy) -> bool {
    s == SortBy::Score || s == SortBy::ScoreDiff || s == SortBy::SecondsComputed || s
        == SortBy::ErrorCode
}

impl SortBy {
    /// The whitelisted column expression this key sorts by; never built
    /// from user input.
    pub fn to_sql_fields(&self) -> (r: &'static str)
        ensures
            r@ == sort_sql_field(*self),
    {
        match self {
            SortBy::Id => "iid",
            SortBy::Name => "name",
            SortBy::Nodes => "nodes",
            SortBy::Edges => "edges",
            SortBy::CreatedAt => "i.created_at",
            SortBy::BestScore => "best_score",
            SortBy::Difficulty => "best_score",
            SortBy::MinDeg => "min_deg",
            SortBy::MaxDeg => "max_deg",
            SortBy::AvgDeg => "edges / nodes",
            SortBy::NumCCs => "num_ccs",
            SortBy::NodesLargestCC => "nodes_largest_cc",
            SortBy::Diameter => "diameter",
            SortBy::Bipartite => "bipartite",
            SortBy::Planar => "planar",
            SortBy::Treewidth => "treewidth",
            SortBy::Regular => "min_deg=max_deg",
            SortBy::Score => "s.score",
            SortBy::ScoreDiff => "s.score - i.best_score",
            SortBy::SecondsComputed => "s.seconds_computed",
            SortBy::ErrorCode => "s.error_code",
        }
    }
}

/// The column expression of each sort key.
pub open spec fn sort_sql_field(s: SortBy) -> Seq<char> {
    match s {
        SortBy::Id => "iid"@,
        SortBy::Name => "name"@,
        SortBy::Nodes => "nodes"@,
        SortBy::Edges => "edges"@,
        SortBy::CreatedAt => "i.created_at"@,
        SortBy::BestScore => "best_score"@,
        SortBy::Difficulty => "best_score"@,
        SortBy::MinDeg => "min_deg"@,
        SortBy::MaxDeg => "max_deg"@,
        SortBy::AvgDeg => "edges / nodes"@,
        SortBy::NumCCs => "num_ccs"@,
        SortBy::NodesLargestCC => "nodes_largest_cc"@,
        SortBy::Diameter => "diameter"@,
        SortBy::Bipartite => "bipartite"@,
        SortBy::Planar => "planar"@,
        SortBy::Treewidth => "treewidth"@,
        SortBy::Regular => "min_deg=max_deg"@,
        SortBy::Score => "s.score"@,
        SortBy::ScoreDiff => "s.score - i.best_score"@,
        SortBy::SecondsComputed => "s.seconds_computed"@,
        SortBy::ErrorCode => "s.error_code"@,
    }
}

#[derive(Debug, Clone, Copy, PartialEq, Eq, Structural)]
pub enum SortDirection {
    Asc,
    Desc,
}

impl Default for SortDirection {
    fn default() -> (r: Self)
        ensures
            r == SortDirection::Asc,
    {
        SortDirection::Asc
    }
}

pub fn default_value_1() -> (r: usize)
    ensures
        r == 1,
{
    1
}

pub fn default_value_100() -> (r: usize)
    ensures
        r == 100,
{
    100
}

/// The filter configuration of the instance listing. Times are integral
/// milliseconds; the solver and run identifiers are 128-bit uuid values.
pub struct FilterOptions {
    pub page: usize,
    pub limit: usize,
    pub sort_by: SortBy,
    pub sort_direction: SortDirection,
    pub tag: Option<u32>,
    pub iid: Option<u32>,
    pub nodes_lb: Option<u32>,
    pub nodes_ub: Option<u32>,
    pub edges_lb: Option<u32>,
    pub edges_ub: Option<u32>,
    pub best_score_lb: Option<u32>,
    pub best_score_ub: Option<u32>,
    pub min_deg_lb: Option<u32>,
    pub min_deg_ub: Option<u32>,
    pub max_deg_lb: Option<u32>,
    pub max_deg_ub: Option<u32>,
    pub num_ccs_lb: Option<u32>,
    pub num_ccs_ub: Option<u32>,
    pub nodes_largest_cc_lb: Option<u32>,
    pub nodes_largest_cc_ub: Option<u32>,
    pub diameter_lb: Option<u32>,
    pub diameter_ub: Option<u32>,
    pub treewidth_lb: Option<u32>,
    pub treewidth_ub: Option<u32>,
    pub planar: Option<bool>,
    pub bipartite: Option<bool>,
    pub regular: Option<bool>,
    pub include_tag_list: bool,
    pub include_max_values: bool,
    pub solver: Option<u128>,
    pub run: Option<u128>,
    pub score_lb: Option<u32>,
    pub score_ub: Option<u32>,
    pub score_diff_lb: Option<u32>,
    pub score_diff_ub: Option<u32>,
    pub seconds_computed_lb: Option<u64>,
    pub seconds_computed_ub: Option<u64>,
    pub search: Option<Vec<u8>>,
    pub result_status: ResultStatusFilter,
}

impl Default for FilterOptions {
    fn default() -> (r: Self)
        ensures
            r.page == 1,
            r.limit == 100,
            r.sort_by == SortBy::Id,
            r.sort_direction == SortDirection::Asc,
            r.tag is None,
            r.iid is None,
            r.run is None,
            r.solver is None,
            r.search is None,
            r.result_status == ResultStatusFilter::NoFilter,
            !r.has_overlay_filters(),
    {
        FilterOptions {
            page: 1,
            limit: 100,
            sort_by: SortBy::Id,
            sort_direction: SortDirection::Asc,
            tag: None,
            iid: None,
            nodes_lb: None,
            nodes_ub: None,
            edges_lb: None,
            edges_ub: None,
            best_score_lb: None,
            best_score_ub: None,
            min_deg_lb: None,
            min_deg_ub: None,
            max_deg_lb: None,
            max_deg_ub: None,
            num_ccs_lb: None,
            num_ccs_ub: None,
            nodes_largest_cc_lb: None,
            nodes_largest_cc_ub: None,
            diameter_lb: None,
            diameter_ub: None,
            treewidth_lb: None,
            treewidth_ub: None,
            planar: None,
            bipartite: None,
            regular: None,
            include_tag_list: false,
            include_max_values: false,
            solver: None,
            run: None,
            score_lb: None,
            score_ub: None,
            score_diff_lb: None,
            score_diff_ub: None,
            seconds_computed_lb: None,
            seconds_computed_ub: None,
            search: None,
            result_status: ResultStatusFilter::NoFilter,
        }
    }
}

impl FilterOptions {
    /// Both overlay identifiers are present: the overlay is enabled.
    pub open spec fn has_overlay(&self) -> bool {
        self.solver is Some && self.run is Some
    }

    /// Some filter that only exists under the overlay is set.
    pub open spec fn has_overlay_filters(&self) -> bool {
        self.score_lb is Some || self.score_ub is Some || self.score_diff_lb is Some
            || self.score_diff_ub is Some || self.seconds_computed_lb is Some
            || self.seconds_computed_ub is Some || self.result_status
            != ResultStatusFilter::NoFilter
    }

    /// The whole configuration is coherent: solver and run come together,
    /// and without them no overlay-only filter or sort key may appear.
    pub open spec fn valid_spec(&self) -> bool {
        &&& (self.solver is Some <==> self.run is Some)
        &&& (self.run is None ==> !self.has_overlay_filters())
        &&& (self.run is None ==> !overlay_only_sort(self.sort_by))
    }

    /// Overlay gating: rejects a configuration that names only one of
    /// solver and run, or uses overlay-only filters or sort keys without
    /// both.
    pub fn check_validity(&self) -> (r: Result<(), CoreError>)
        ensures
            r is Ok <==> self.valid_spec(),
            r matches Err(e) ==> e.kind == ErrorKind::BadInput,
    {
        if self.run.is_some() != self.solver.is_some() {
            return Err(
                CoreError::bad_input("solver and run must be both provided or both not"),
            );
        }
        if self.run.is_none() {
            if self.score_lb.is_some() || self.score_ub.is_some() || self.score_diff_lb.is_some()
                || self.score_diff_ub.is_some() || self.seconds_computed_lb.is_some()
                || self.seconds_computed_ub.is_some() || !matches!(
                self.result_status,
                ResultStatusFilter::NoFilter) {
                return Err(
                    CoreError::bad_input(
                        "solver and run must be provided when filtering by score, score_diff, seconds_computed or status",
                    ),
                );
            }
            let overlay_sort = matches!(
                self.sort_by,
                SortBy::Score | SortBy::ScoreDiff | SortBy::SecondsComputed | SortBy::ErrorCode);
            if overlay_sort {
                return Err(
                    CoreError::bad_input("sort-by option requires solver and run to be provided"),
                );
            }
        }
        Ok(())
    }
}

/// `needle` occurs contiguously inside `hay`.
pub open spec fn is_substring(hay: Seq<u8>, needle: Seq<u8>) -> bool {
    exists|i: int|
        0 <= i && i + needle.len() <= hay.len() && #[trigger] hay.subrange(i, i + needle.len())
            == needle
}

/// Whether `needle` occurs inside `hay`.
pub fn substring_exec(hay: &Vec<u8>, needle: &Vec<u8>) -> (r: bool)
    ensures
        r == is_substring(hay@, needle@),
{
    if needle.len() > hay.len() {
        proof {
            if is_substring(hay@, needle@) {
                let i = choose|i: int|
                    0 <= i && i + needle@.len() <= hay@.len() && #[trigger] hay@.subrange(
                        i,
                        i + needle@.len(),
                    ) == needle@;
            }
        }
        return false;
    }
    let mut i: usize = 0;
    while i <= hay.len() - needle.len()
        invariant
            needle@.len() <= hay@.len(),
            0 <= i <= hay@.len() - needle@.len() + 1,
            forall|k: int|
                0 <= k < i ==> #[trigger] hay@.subrange(k, k + needle@.len()) != needle@,
        decreases hay@.len() + 1 - i,
    {
        let mut j: usize = 0;
        let mut all: bool = true;
        while j < needle.len()
            invariant
                0 <= j <= needle@.len(),
                i + needle@.len() <= hay@.len(),
                hay@.len() <= usize::MAX,
                all == (forall|k: int| 0 <= k < j ==> hay@[i + k] == needle@[k]),
            decreases needle@.len() - j,
        {
            let ghost old_all = all;
            if hay[i + j] != needle[j] {
                all = false;
                proof {
                    assert(hay@[i as int + j as int] != needle@[j as int]);
                    assert(!(forall|k: int| 0 <= k < j + 1 ==> hay@[i + k] == needle@[k])) by {
                        assert(!(hay@[i + j as int] == needle@[j as int]));
                    }
                }
            } else {
                proof {
                    if old_all {
                        assert forall|k: int| 0 <= k < j + 1 implies hay@[i + k] == needle@[k] by {}
                    } else {
                        let k0 = choose|k0: int|
                            0 <= k0 < j && hay@[i + k0] != needle@[k0];
                        assert(!(forall|k: int| 0 <= k < j + 1 ==> hay@[i + k] == needle@[k]));
                    }
                }
            }
            j = j + 1;
        }
        if all {
            proof {
                assert(hay@.subrange(i as int, i as int + needle@.len() as int) =~= needle@);
            }
            return true;
        }
        proof {
            let k0 = choose|k0: int| 0 <= k0 < needle@.len() && hay@[i + k0] != needle@[k0];
            assert(hay@.subrange(i as int, i as int + needle@.len() as int) != needle@) by {
                assert(hay@.subrange(i as int, i as int + needle@.len() as int)[k0] == hay@[i
                    + k0]);
            }
        }
        i = i + 1;
    }
    proof {
        if is_substring(hay@, needle@) {
            let k = choose|k: int|
                0 <= k && k + needle@.len() <= hay@.len() && #[trigger] hay@.subrange(
                    k,
                    k + needle@.len(),
                ) == needle@;
        }
    }
    false
}

/// Whether an optional text field holds the search bytes.
fn opt_field_has(field: &Option<Vec<u8>>, needle: &Vec<u8>) -> (r: bool)
    ensures
        r == (field matches Some(f) && is_substring(f@, needle@)),
{
    match field {
        Some(f) => substring_exec(f, needle),
        None => false,
    }
}

/// One numeric range test against an optional column: SQL comparison with
/// an absent value holds nothing.
pub open spec fn opt_range_ok(v: Option<u32>, lb: Option<u32>, ub: Option<u32>) -> bool {
    &&& (lb matches Some(x) ==> v matches Some(c) && c >= x)
    &&& (ub matches Some(x) ==> v matches Some(c) && c <= x)
}

/// The same for a mandatory column.
pub open spec fn range_ok_u32(c: u32, lb: Option<u32>, ub: Option<u32>) -> bool {
    &&& (lb matches Some(x) ==> c >= x)
    &&& (ub matches Some(x) ==> c <= x)
}

pub open spec fn range_ok_u64(c: u64, lb: Option<u32>, ub: Option<u32>) -> bool {
    &&& (lb matches Some(x) ==> c >= x)
    &&& (ub matches Some(x) ==> c <= x)
}

/// Whether the free-text search accepts the instance: a substring of its
/// name, description or submitter, or its id written as any
/// whitespace-separated word of the query.
pub open spec fn search_matches(inst: InstanceRow, needle: Seq<u8>) -> bool {
    ||| (inst.name matches Some(f) && is_substring(f@, needle))
    ||| (inst.description matches Some(f) && is_substring(f@, needle))
    ||| (inst.submitted_by matches Some(f) && is_substring(f@, needle))
    ||| (exists|t: int|
        0 <= t < crate::text::split_ws(needle).len() && crate::text::valid_number(
            #[trigger] crate::text::split_ws(needle)[t],
            0x1_0000_0000,
        ) && crate::text::dec_value(crate::text::split_ws(needle)[t]) == inst.iid)
}

/// Whether the overlay part of the filter accepts the joined solution.
pub open spec fn overlay_matches(opts: FilterOptions, inst: InstanceRow, sol: SolutionRow) -> bool {
    &&& opt_range_ok(sol.score, opts.score_lb, opts.score_ub)
    &&& (opts.score_diff_lb matches Some(x) ==> sol.score matches Some(sc)
        && inst.best_score matches Some(b) && sc >= b + x)
    &&& (opts.score_diff_ub matches Some(x) ==> sol.score matches Some(sc)
        && inst.best_score matches Some(b) && sc <= b + x)
    &&& (opts.seconds_computed_lb matches Some(x) ==> sol.seconds_computed matches Some(t) && t
        >= x)
    &&& (opts.seconds_computed_ub matches Some(x) ==> sol.seconds_computed matches Some(t) && t
        <= x)
    &&& (match opts.result_status {
        ResultStatusFilter::NoFilter => true,
        ResultStatusFilter::Valid => sol.score is Some,
        ResultStatusFilter::Invalid => sol.score is None,
        ResultStatusFilter::Optimal => inst.best_score is Some && inst.best_score == sol.score,
        ResultStatusFilter::Suboptimal => inst.best_score matches Some(b) && sol.score
            matches Some(sc) && b < sc,
        ResultStatusFilter::Incomplete => sol.error_code == SolverResultType::IncompleteOutput,
        ResultStatusFilter::Timeout => sol.error_code == SolverResultType::Timeout,
        ResultStatusFilter::Infeasible => sol.error_code == SolverResultType::Infeasible,
        ResultStatusFilter::Error => sol.error_code == SolverResultType::SyntaxError,
    })
}

/// Whether the non-overlay part of the filter accepts the instance.
pub open spec fn base_matches(opts: FilterOptions, inst: InstanceRow, search: Option<Seq<u8>>) -> bool {
    &&& range_ok_u32(inst.nodes, opts.nodes_lb, opts.nodes_ub)
    &&& range_ok_u64(inst.edges, opts.edges_lb, opts.edges_ub)
    &&& opt_range_ok(inst.best_score, opts.best_score_lb, opts.best_score_ub)
    &&& opt_range_ok(inst.min_deg, opts.min_deg_lb, opts.min_deg_ub)
    &&& opt_range_ok(inst.max_deg, opts.max_deg_lb, opts.max_deg_ub)
    &&& opt_range_ok(inst.num_ccs, opts.num_ccs_lb, opts.num_ccs_ub)
    &&& opt_range_ok(inst.nodes_largest_cc, opts.nodes_largest_cc_lb, opts.nodes_largest_cc_ub)
    &&& opt_range_ok(inst.diameter, opts.diameter_lb, opts.diameter_ub)
    &&& opt_range_ok(inst.treewidth, opts.treewidth_lb, opts.treewidth_ub)
    &&& (opts.iid matches Some(x) ==> inst.iid == x)
    &&& (opts.planar matches Some(x) ==> inst.planar == Some(x))
    &&& (opts.bipartite matches Some(x) ==> inst.bipartite == Some(x))
    &&& (opts.regular matches Some(x) ==> (if x {
        inst.min_deg is Some && inst.min_deg == inst.max_deg
    } else {
        inst.min_deg matches Some(a) && inst.max_deg matches Some(b) && a != b
    }))
    &&& (search matches Some(n) ==> search_matches(inst, n))
}

/// Tests the non-overlay filters against one instance row.
pub fn base_matches_exec(opts: &FilterOptions, inst: &InstanceRow) -> (r: bool)
    ensures
        r == base_matches(*opts, *inst, crate::store::opt_bytes_view(opts.search)),
{
    let nodes_ok = (match opts.nodes_lb {
        Some(x) => inst.nodes >= x,
        None => true,
    }) && (match opts.nodes_ub {
        Some(x) => inst.nodes <= x,
        None => true,
    });
    let edges_ok = (match opts.edges_lb {
        Some(x) => inst.edges >= x as u64,
        None => true,
    }) && (match opts.edges_ub {
        Some(x) => inst.edges <= x as u64,
        None => true,
    });
    let bs_ok = opt_range_exec(&inst.best_score, &opts.best_score_lb, &opts.best_score_ub);
    let mind_ok = opt_range_exec(&inst.min_deg, &opts.min_deg_lb, &opts.min_deg_ub);
    let maxd_ok = opt_range_exec(&inst.max_deg, &opts.max_deg_lb, &opts.max_deg_ub);
    let ccs_ok = opt_range_exec(&inst.num_ccs, &opts.num_ccs_lb, &opts.num_ccs_ub);
    let nlcc_ok = opt_range_exec(
        &inst.nodes_largest_cc,
        &opts.nodes_largest_cc_lb,
        &opts.nodes_largest_cc_ub,
    );
    let diam_ok = opt_range_exec(&inst.diameter, &opts.diameter_lb, &opts.diameter_ub);
    let tw_ok = opt_range_exec(&inst.treewidth, &opts.treewidth_lb, &opts.treewidth_ub);
    let iid_ok = match opts.iid {
        Some(x) => inst.iid == x,
        None => true,
    };
    let planar_ok = match opts.planar {
        Some(x) => match inst.planar {
            Some(c) => c == x,
            None => false,
        },
        None => true,
    };
    let bip_ok = match opts.bipartite {
        Some(x) => match inst.bipartite {
            Some(c) => c == x,
            None => false,
        },
        None => true,
    };
    let reg_ok = match opts.regular {
        Some(x) => {
            if x {
                match (&inst.min_deg, &inst.max_deg) {
                    (Some(a), Some(b)) => *a == *b,
                    _ => false,
                }
            } else {
                match (&inst.min_deg, &inst.max_deg) {
                    (Some(a), Some(b)) => *a != *b,
                    _ => false,
                }
            }
        },
        None => true,
    };
    let search_ok = match &opts.search {
        Some(n) => {
            let in_text = opt_field_has(&inst.name, n) || opt_field_has(&inst.description, n)
                || opt_field_has(&inst.submitted_by, n);
            if in_text {
                true
            } else {
                word_matches_iid(n, inst.iid)
            }
        },
        None => true,
    };
    nodes_ok && edges_ok && bs_ok && mind_ok && maxd_ok && ccs_ok && nlcc_ok && diam_ok && tw_ok
        && iid_ok && planar_ok && bip_ok && reg_ok && search_ok
}

/// Whether any whitespace-separated word of the query is the instance id.
fn word_matches_iid(needle: &Vec<u8>, iid: u32) -> (r: bool)
    ensures
        r == (exists|t: int|
            0 <= t < crate::text::split_ws(needle@).len() && crate::text::valid_number(
                #[trigger] crate::text::split_ws(needle@)[t],
                0x1_0000_0000,
            ) && crate::text::dec_value(crate::text::split_ws(needle@)[t]) == iid),
{
    let toks = crate::text::split_ws_exec(needle);
    let ghost gtoks = crate::text::split_ws(needle@);
    proof {
        assert(toks.deep_view() == gtoks);
    }
    let mut t: usize = 0;
    while t < toks.len()
        invariant
            0 <= t <= gtoks.len(),
            toks.deep_view() == gtoks,
            gtoks == crate::text::split_ws(needle@),
            forall|k: int|
                0 <= k < t ==> !(crate::text::valid_number(#[trigger] gtoks[k], 0x1_0000_0000)
                    && crate::text::dec_value(gtoks[k]) == iid),
        decreases gtoks.len() - t,
    {
        proof {
            assert(toks@[t as int]@ =~= gtoks[t as int]);
        }
        match crate::text::parse_u32(&toks[t]) {
            Some(v) => {
                if v == iid {
                    proof {
                        assert(crate::text::valid_number(
                            crate::text::split_ws(needle@)[t as int],
                            0x1_0000_0000,
                        ) && crate::text::dec_value(crate::text::split_ws(needle@)[t as int])
                            == iid);
                    }
                    return true;
                }
            },
            None => {},
        }
        t = t + 1;
    }
    false
}

/// Tests one optional column against an optional range.
fn opt_range_exec(v: &Option<u32>, lb: &Option<u32>, ub: &Option<u32>) -> (r: bool)
    ensures
        r == opt_range_ok(*v, *lb, *ub),
{
    let lb_ok = match lb {
        Some(x) => match v {
            Some(c) => *c >= *x,
            None => false,
        },
        None => true,
    };
    let ub_ok = match ub {
        Some(x) => match v {
            Some(c) => *c <= *x,
            None => false,
        },
        None => true,
    };
    lb_ok && ub_ok
}

/// Tests the overlay filters against one joined solution row.
pub fn overlay_matches_exec(opts: &FilterOptions, inst: &InstanceRow, sol: &SolutionRow) -> (r:
    bool)
    ensures
        r == overlay_matches(*opts, *inst, *sol),
{
    let score_ok = opt_range_exec(&sol.score, &opts.score_lb, &opts.score_ub);
    let diff_lb_ok = match opts.score_diff_lb {
        Some(x) => match (&sol.score, &inst.best_score) {
            (Some(sc), Some(b)) => *sc as u64 >= *b as u64 + x as u64,
            _ => false,
        },
        None => true,
    };
    let diff_ub_ok = match opts.score_diff_ub {
        Some(x) => match (&sol.score, &inst.best_score) {
            (Some(sc), Some(b)) => *sc as u64 <= *b as u64 + x as u64,
            _ => false,
        },
        None => true,
    };
    let sec_lb_ok = match opts.seconds_computed_lb {
        Some(x) => match &sol.seconds_computed {
            Some(t) => *t >= x,
            None => false,
        },
        None => true,
    };
    let sec_ub_ok = match opts.seconds_computed_ub {
        Some(x) => match &sol.seconds_computed {
            Some(t) => *t <= x,
            None => false,
        },
        None => true,
    };
    let status_ok = match opts.result_status {
        ResultStatusFilter::NoFilter => true,
        ResultStatusFilter::Valid => sol.score.is_some(),
        ResultStatusFilter::Invalid => sol.score.is_none(),
        ResultStatusFilter::Optimal => match (&inst.best_score, &sol.score) {
            (Some(b), Some(sc)) => *b == *sc,
            _ => false,
        },
        ResultStatusFilter::Suboptimal => match (&inst.best_score, &sol.score) {
            (Some(b), Some(sc)) => *b < *sc,
            _ => false,
        },
        ResultStatusFilter::Incomplete => matches!(
            sol.error_code,
            SolverResultType::IncompleteOutput),
        ResultStatusFilter::Timeout => matches!(sol.error_code, SolverResultType::Timeout),
        ResultStatusFilter::Infeasible => matches!(sol.error_code, SolverResultType::Infeasible),
        ResultStatusFilter::Error => matches!(sol.error_code, SolverResultType::SyntaxError),
    };
    score_ok && diff_lb_ok && diff_ub_ok && sec_lb_ok && sec_ub_ok && status_ok
}

} // verus!
