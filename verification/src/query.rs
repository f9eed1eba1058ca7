//! Evaluation of the listing queries over the store: which instances a
//! filter matches, in which order a sort key lists them, and which page is
//! returned. The row count of a page always agrees with the total match
//! count modulo pagination, and the listed rows are monotone in the sort
//! key.
use vstd::prelude::*;

use crate::err::{CoreError, ErrorKind};
use crate::filter::{
    base_matches, base_matches_exec, overlay_matches, overlay_matches_exec, FilterOptions, SortBy,
    SortDirection,
};
use crate::store::{opt_bytes_view, InstanceRow, SolutionRow, Store};

verus! {

/// Whether the link table ties an instance to a tag.
pub open spec fn has_link(links: Seq<crate::store::InstanceTagRow>, iid: u32, tid: u32) -> bool {
    exists|i: int|
        0 <= i < links.len() && (#[trigger] links[i]).instance_iid == iid && links[i].tag_tid
            == tid
}

fn has_link_exec(st: &Store, iid: u32, tid: u32) -> (r: bool)
    ensures
        r == has_link(st.instance_tags@, iid, tid),
{
    let mut i: usize = 0;
    while i < st.instance_tags.len()
        invariant
            0 <= i <= st.instance_tags@.len(),
            forall|k: int|
                0 <= k < i ==> !((#[trigger] st.instance_tags@[k]).instance_iid == iid
                    && st.instance_tags@[k].tag_tid == tid),
        decreases st.instance_tags@.len() - i,
    {
        if st.instance_tags[i].instance_iid == iid && st.instance_tags[i].tag_tid == tid {
            return true;
        }
        i = i + 1;
    }
    proof {
        if has_link(st.instance_tags@, iid, tid) {
            let k = choose|k: int|
                0 <= k < st.instance_tags@.len() && (#[trigger] st.instance_tags@[k]).instance_iid
                    == iid && st.instance_tags@[k].tag_tid == tid;
        }
    }
    false
}

/// Whether the run has a solution row for the instance.
pub open spec fn has_overlay_row(sols: Seq<SolutionRow>, run: u128, iid: u32) -> bool {
    crate::store::has_run_pair(sols, run, iid)
}

/// The index of the run's solution row for the instance; unique in a
/// well-formed store.
pub open spec fn overlay_ix(sols: Seq<SolutionRow>, run: u128, iid: u32) -> int {
    choose|i: int|
        0 <= i < sols.len() && (#[trigger] sols[i]).sr_uuid == run && sols[i].instance_iid == iid
}

/// Finds the run's solution row for an instance.
pub fn find_overlay(st: &Store, run: u128, iid: u32) -> (r: Option<usize>)
    requires
        st.wf(),
    ensures
        r matches Some(i) ==> i < st.solutions@.len() && i == overlay_ix(st.solutions@, run, iid)
            && st.solutions@[i as int].sr_uuid == run && st.solutions@[i as int].instance_iid
            == iid,
        r is Some <==> has_overlay_row(st.solutions@, run, iid),
{
    let mut i: usize = 0;
    while i < st.solutions.len()
        invariant
            st.wf(),
            0 <= i <= st.solutions@.len(),
            forall|k: int|
                0 <= k < i ==> !((#[trigger] st.solutions@[k]).sr_uuid == run
                    && st.solutions@[k].instance_iid == iid),
        decreases st.solutions@.len() - i,
    {
        if st.solutions[i].sr_uuid == run && st.solutions[i].instance_iid == iid {
            proof {
                let j = overlay_ix(st.solutions@, run, iid);
                assert(0 <= j < st.solutions@.len() && st.solutions@[j].sr_uuid == run
                    && st.solutions@[j].instance_iid == iid) by {
                    assert(st.solutions@[i as int].sr_uuid == run
                        && st.solutions@[i as int].instance_iid == iid);
                }
                if j != i as int {
                    assert(!(st.solutions@[j].sr_uuid == st.solutions@[i as int].sr_uuid
                        && st.solutions@[j].instance_iid == st.solutions@[i as int].instance_iid));
                }
            }
            return Some(i);
        }
        i = i + 1;
    }
    proof {
        if has_overlay_row(st.solutions@, run, iid) {
            let k = choose|k: int|
                0 <= k < st.solutions@.len() && (#[trigger] st.solutions@[k]).sr_uuid == run
                    && st.solutions@[k].instance_iid == iid;
        }
    }
    None
}

/// Whether the filter accepts the instance at index `i`: the base facets,
/// the tag link, and — with an overlay — a solution of that run that
/// passes the overlay facets.
pub open spec fn instance_included(st: Store, opts: FilterOptions, i: int) -> bool {
    let inst = st.instances@[i];
    &&& base_matches(opts, inst, opt_bytes_view(opts.search))
    &&& (opts.tag matches Some(tid) ==> has_link(st.instance_tags@, inst.iid, tid))
    &&& (opts.run matches Some(run) ==> has_overlay_row(st.solutions@, run, inst.iid)
        && overlay_matches(opts, inst, st.solutions@[overlay_ix(st.solutions@, run, inst.iid)]))
}

/// How many of the first `upto` instances the filter accepts.
pub open spec fn count_included(st: Store, opts: FilterOptions, upto: int) -> int
    decreases upto,
{
    if upto <= 0 {
        0
    } else {
        count_included(st, opts, upto - 1) + if instance_included(st, opts, upto - 1) {
            1int
        } else {
            0int
        }
    }
}

proof fn lemma_count_included_le(st: Store, opts: FilterOptions, upto: int)
    requires
        upto >= 0,
    ensures
        0 <= count_included(st, opts, upto) <= upto,
    decreases upto,
{
    if upto > 0 {
        lemma_count_included_le(st, opts, upto - 1);
    }
}

/// Tests the whole filter against the instance at index `i`.
pub fn instance_included_exec(st: &Store, opts: &FilterOptions, i: usize) -> (r: bool)
    requires
        st.wf(),
        i < st.instances@.len(),
    ensures
        r == instance_included(*st, *opts, i as int),
{
    let inst = &st.instances[i];
    if !base_matches_exec(opts, inst) {
        return false;
    }
    match opts.tag {
        Some(tid) => {
            if !has_link_exec(st, inst.iid, tid) {
                return false;
            }
        },
        None => {},
    }
    match opts.run {
        Some(run) => {
            match find_overlay(st, run, inst.iid) {
                Some(sidx) => overlay_matches_exec(opts, inst, &st.solutions[sidx]),
                None => false,
            }
        },
        None => true,
    }
}

/// The number of matching instances: the total-match count.
pub fn count_matches(st: &Store, opts: &FilterOptions) -> (r: u64)
    requires
        st.wf(),
    ensures
        r == count_included(*st, *opts, st.instances@.len() as int),
{
    let mut cnt: u64 = 0;
    let mut i: usize = 0;
    proof {
        lemma_count_included_le(*st, *opts, st.instances@.len() as int);
    }
    while i < st.instances.len()
        invariant
            st.wf(),
            0 <= i <= st.instances@.len(),
            cnt == count_included(*st, *opts, i as int),
            cnt <= i,
        decreases st.instances@.len() - i,
    {
        if instance_included_exec(st, opts, i) {
            cnt = cnt + 1;
        }
        i = i + 1;
    }
    cnt
}

/// The numeric sort key of the instance at index `i`, `None` standing for
/// an absent value, which sorts first ascending. Keys of the solver
/// overlay read the run's solution row.
pub open spec fn num_key(st: Store, opts: FilterOptions, i: int) -> Option<u64> {
    let inst = st.instances@[i];
    let sol_at = overlay_ix(
        st.solutions@,
        opts.run->Some_0,
        inst.iid,
    );
    match opts.sort_by {
        SortBy::Id => Option::Some(inst.iid as u64),
        SortBy::Name => Option::None,
        SortBy::Nodes => Option::Some(inst.nodes as u64),
        SortBy::Edges => Option::Some(inst.edges),
        SortBy::CreatedAt => Option::Some(inst.created_at),
        SortBy::BestScore => opt_u32_u64(inst.best_score),
        SortBy::Difficulty => opt_u32_u64(inst.best_score),
        SortBy::MinDeg => opt_u32_u64(inst.min_deg),
        SortBy::MaxDeg => opt_u32_u64(inst.max_deg),
        SortBy::AvgDeg => Option::Some(
            if inst.nodes == 0 {
                0u64
            } else {
                inst.edges / (inst.nodes as u64)
            },
        ),
        SortBy::NumCCs => opt_u32_u64(inst.num_ccs),
        SortBy::NodesLargestCC => opt_u32_u64(inst.nodes_largest_cc),
        SortBy::Diameter => opt_u32_u64(inst.diameter),
        SortBy::Treewidth => opt_u32_u64(inst.treewidth),
        SortBy::Bipartite => opt_bool_u64(inst.bipartite),
        SortBy::Planar => opt_bool_u64(inst.planar),
        SortBy::Regular => (match (inst.min_deg, inst.max_deg) {
            (Option::Some(a), Option::Some(b)) => Option::Some(
                if a == b {
                    1u64
                } else {
                    0u64
                },
            ),
            _ => Option::None,
        }),
        SortBy::Score => (if opts.run is Some && has_overlay_row(
            st.solutions@,
            opts.run->Some_0,
            inst.iid,
        ) {
            opt_u32_u64(st.solutions@[sol_at].score)
        } else {
            Option::None
        }),
        SortBy::ScoreDiff => (if opts.run is Some && has_overlay_row(
            st.solutions@,
            opts.run->Some_0,
            inst.iid,
        ) {
            match (st.solutions@[sol_at].score, inst.best_score) {
                (Option::Some(sc), Option::Some(b)) => Option::Some(
                    (sc + 0x1_0000_0000 - b) as u64,
                ),
                _ => Option::None,
            }
        } else {
            Option::None
        }),
        SortBy::SecondsComputed => (if opts.run is Some && has_overlay_row(
            st.solutions@,
            opts.run->Some_0,
            inst.iid,
        ) {
            st.solutions@[sol_at].seconds_computed
        } else {
            Option::None
        }),
        SortBy::ErrorCode => (if opts.run is Some && has_overlay_row(
            st.solutions@,
            opts.run->Some_0,
            inst.iid,
        ) {
            Option::Some(st.solutions@[sol_at].error_code.code_spec() as u64)
        } else {
            Option::None
        }),
    }
}

pub open spec fn opt_u32_u64(v: Option<u32>) -> Option<u64> {
    match v {
        Option::Some(x) => Option::Some(x as u64),
        Option::None => Option::None,
    }
}

pub open spec fn opt_bool_u64(v: Option<bool>) -> Option<u64> {
    match v {
        Option::Some(x) => Option::Some(
            if x {
                1u64
            } else {
                0u64
            },
        ),
        Option::None => Option::None,
    }
}

/// Absent values first, then numeric order.
pub open spec fn opt_num_le(a: Option<u64>, b: Option<u64>) -> bool {
    match (a, b) {
        (Option::None, _) => true,
        (Option::Some(_), Option::None) => false,
        (Option::Some(x), Option::Some(y)) => x <= y,
    }
}

/// The listing order between the instances at indexes `a` and `b`:
/// ascending in the sort key, or the reverse of it descending.
pub open spec fn row_le(st: Store, opts: FilterOptions, a: int, b: int) -> bool {
    match opts.sort_direction {
        SortDirection::Asc => opt_num_le(num_key(st, opts, a), num_key(st, opts, b)),
        SortDirection::Desc => opt_num_le(num_key(st, opts, b), num_key(st, opts, a)),
    }
}

/// Computes the numeric sort key of one instance.
pub fn num_key_exec(st: &Store, opts: &FilterOptions, i: usize) -> (r: Option<u64>)
    requires
        st.wf(),
        i < st.instances@.len(),
    ensures
        r == num_key(*st, *opts, i as int),
{
    let inst = &st.instances[i];
    match opts.sort_by {
        SortBy::Id => Some(inst.iid as u64),
        SortBy::Name => None,
        SortBy::Nodes => Some(inst.nodes as u64),
        SortBy::Edges => Some(inst.edges),
        SortBy::CreatedAt => Some(inst.created_at),
        SortBy::BestScore => match inst.best_score {
            Some(x) => Some(x as u64),
            None => None,
        },
        SortBy::Difficulty => match inst.best_score {
            Some(x) => Some(x as u64),
            None => None,
        },
        SortBy::MinDeg => match inst.min_deg {
            Some(x) => Some(x as u64),
            None => None,
        },
        SortBy::MaxDeg => match inst.max_deg {
            Some(x) => Some(x as u64),
            None => None,
        },
        SortBy::AvgDeg => {
            if inst.nodes == 0 {
                Some(0)
            } else {
                Some(inst.edges / (inst.nodes as u64))
            }
        },
        SortBy::NumCCs => match inst.num_ccs {
            Some(x) => Some(x as u64),
            None => None,
        },
        SortBy::NodesLargestCC => match inst.nodes_largest_cc {
            Some(x) => Some(x as u64),
            None => None,
        },
        SortBy::Diameter => match inst.diameter {
            Some(x) => Some(x as u64),
            None => None,
        },
        SortBy::Treewidth => match inst.treewidth {
            Some(x) => Some(x as u64),
            None => None,
        },
        SortBy::Bipartite => match inst.bipartite {
            Some(x) => Some(
                if x {
                    1
                } else {
                    0
                },
            ),
            None => None,
        },
        SortBy::Planar => match inst.planar {
            Some(x) => Some(
                if x {
                    1
                } else {
                    0
                },
            ),
            None => None,
        },
        SortBy::Regular => match (&inst.min_deg, &inst.max_deg) {
            (Some(a), Some(b)) => Some(
                if *a == *b {
                    1
                } else {
                    0
                },
            ),
            _ => None,
        },
        SortBy::Score => match opts.run {
            Some(run) => match find_overlay(st, run, inst.iid) {
                Some(sidx) => match st.solutions[sidx].score {
                    Some(x) => Some(x as u64),
                    None => None,
                },
                None => None,
            },
            None => None,
        },
        SortBy::ScoreDiff => match opts.run {
            Some(run) => match find_overlay(st, run, inst.iid) {
                Some(sidx) => match (&st.solutions[sidx].score, &inst.best_score) {
                    (Some(sc), Some(b)) => Some(*sc as u64 + 0x1_0000_0000 - *b as u64),
                    _ => None,
                },
                None => None,
            },
            None => None,
        },
        SortBy::SecondsComputed => match opts.run {
            Some(run) => match find_overlay(st, run, inst.iid) {
                Some(sidx) => st.solutions[sidx].seconds_computed,
                None => None,
            },
            None => None,
        },
        SortBy::ErrorCode => match opts.run {
            Some(run) => match find_overlay(st, run, inst.iid) {
                Some(sidx) => Some(st.solutions[sidx].error_code.code() as u64),
                None => None,
            },
            None => None,
        },
    }
}

/// Whether index `a` sorts no later than index `b`.
fn row_le_exec(st: &Store, opts: &FilterOptions, a: usize, b: usize) -> (r: bool)
    requires
        st.wf(),
        a < st.instances@.len(),
        b < st.instances@.len(),
    ensures
        r == row_le(*st, *opts, a as int, b as int),
{
    let (x, y) = match opts.sort_direction {
        SortDirection::Asc => (num_key_exec(st, opts, a), num_key_exec(st, opts, b)),
        SortDirection::Desc => (num_key_exec(st, opts, b), num_key_exec(st, opts, a)),
    };
    match (x, y) {
        (None, _) => true,
        (Some(_), None) => false,
        (Some(p), Some(q)) => p <= q,
    }
}

/// Sorts instance indexes into listing order; a permutation of the input.
#[verifier::rlimit(100)]
fn sort_rows(st: &Store, opts: &FilterOptions, input: Vec<usize>) -> (r: Vec<usize>)
    requires
        st.wf(),
        forall|k: int| 0 <= k < input@.len() ==> #[trigger] input@[k] < st.instances@.len(),
    ensures
        r@.to_multiset() == input@.to_multiset(),
        r@.len() == input@.len(),
        forall|k: int| 0 <= k < r@.len() ==> #[trigger] r@[k] < st.instances@.len(),
        forall|p: int, q: int|
            0 <= p < q < r@.len() ==> row_le(*st, *opts, #[trigger] r@[p] as int, #[trigger] r@[q] as int),
    decreases input@.len(),
{
    broadcast use vstd::seq_lib::group_to_multiset_ensures;

    let mut out: Vec<usize> = Vec::new();
    let mut i: usize = 0;
    proof {
        assert(input@.subrange(0, 0) =~= Seq::<usize>::empty());
        assert(out@.to_multiset() =~= input@.subrange(0, 0).to_multiset());
    }
    while i < input.len()
        invariant
            st.wf(),
            0 <= i <= input@.len(),
            forall|k: int| 0 <= k < input@.len() ==> #[trigger] input@[k] < st.instances@.len(),
            forall|k: int| 0 <= k < out@.len() ==> #[trigger] out@[k] < st.instances@.len(),
            out@.to_multiset() == input@.subrange(0, i as int).to_multiset(),
            out@.len() == i,
            forall|p: int, q: int|
                0 <= p < q < out@.len() ==> row_le(
                    *st,
                    *opts,
                    #[trigger] out@[p] as int,
                    #[trigger] out@[q] as int,
                ),
        decreases input@.len() - i,
    {
        let x = input[i];
        let mut j: usize = 0;
        while j < out.len() && row_le_exec(st, opts, out[j], x)
            invariant
                st.wf(),
                0 <= j <= out@.len(),
                x < st.instances@.len(),
                forall|k: int| 0 <= k < out@.len() ==> #[trigger] out@[k] < st.instances@.len(),
                forall|k: int| 0 <= k < j ==> row_le(*st, *opts, #[trigger] out@[k] as int, x as int),
            decreases out@.len() - j,
        {
            j = j + 1;
        }
        let ghost old_out = out@;
        out.insert(j, x);
        proof {
            old_out.insert_ensures(j as int, x);
            assert forall|p: int, q: int| 0 <= p < q < out@.len() implies row_le(
                *st,
                *opts,
                out@[p] as int,
                out@[q] as int,
            ) by {
                if q < j {
                    assert(out@[p] == old_out[p] && out@[q] == old_out[q]);
                } else if q == j {
                    assert(out@[q] == x && out@[p] == old_out[p]);
                } else if p < j {
                    assert(out@[p] == old_out[p] && out@[q] == old_out[q - 1]);
                    if j as int != q - 1 {
                        assert(row_le(*st, *opts, old_out[j as int] as int, old_out[q - 1] as int));
                    }
                    assert(!row_le(*st, *opts, old_out[j as int] as int, x as int));
                } else if p == j {
                    assert(out@[p] == x && out@[q] == old_out[q - 1]);
                    assert(!row_le(*st, *opts, old_out[j as int] as int, x as int));
                    if j as int != q - 1 {
                        assert(row_le(*st, *opts, old_out[j as int] as int, old_out[q - 1] as int));
                    }
                } else {
                    assert(out@[p] == old_out[p - 1] && out@[q] == old_out[q - 1]);
                }
            }
            vstd::seq_lib::to_multiset_build(input@.subrange(0, i as int), x);
            assert(input@.subrange(0, i as int + 1) =~= input@.subrange(0, i as int).push(x));
            lemma_usize_insert_to_multiset(old_out, j as int, x);
        }
        i = i + 1;
    }
    proof {
        assert(input@.subrange(0, i as int) =~= input@);
    }
    out
}

/// Inserting into an index sequence adds one occurrence to its multiset.
proof fn lemma_usize_insert_to_multiset(s: Seq<usize>, i: int, a: usize)
    requires
        0 <= i <= s.len(),
    ensures
        s.insert(i, a).to_multiset() == s.to_multiset().insert(a),
{
    broadcast use vstd::seq_lib::group_to_multiset_ensures;

    let p = s.subrange(0, i);
    let q = s.subrange(i, s.len() as int);
    assert(s =~= p + q);
    vstd::seq_lib::lemma_multiset_commutative(p, q);
    vstd::seq_lib::lemma_multiset_commutative(p.push(a), q);
    assert(p.push(a).to_multiset() =~= p.to_multiset().insert(a));
    assert(s.insert(i, a).to_multiset() =~= s.to_multiset().insert(a));
}

/// One page of a listing: the total match count and the instance indexes
/// of the page, in listing order.
pub struct Listing {
    pub total_matches: u64,
    pub rows: Vec<usize>,
}

/// The returned page is exactly the page window of `full`, the
/// duplicate-free, sorted sequence of all matching instance indexes.
pub open spec fn listing_window(st: Store, opts: FilterOptions, full: Seq<usize>, l: Listing) -> bool {
    &&& full.no_duplicates()
    &&& full.len() == l.total_matches
    &&& (forall|j: int|
        0 <= j < st.instances@.len() ==> (instance_included(st, opts, j) <==> full.contains(
            j as usize,
        )))
    &&& (forall|k: int| 0 <= k < full.len() ==> #[trigger] full[k] < st.instances@.len())
    &&& (forall|p: int, q: int|
        0 <= p < q < full.len() ==> row_le(st, opts, #[trigger] full[p] as int, #[trigger] full[q] as int))
    &&& ({
        let total = full.len() as int;
        let offset = if opts.page >= 1 {
            (opts.page - 1) as int * opts.limit as int
        } else {
            0
        };
        let start = if offset > total {
            total
        } else {
            offset
        };
        let stop = if start + opts.limit as int > total {
            total
        } else {
            start + opts.limit as int
        };
        l.rows@ == full.subrange(start, stop)
    })
}

/// Evaluates the listing: validity, filtering, sorting, pagination. The
/// page length always equals the total match count clamped by the page
/// window, and consecutive rows are monotone in the sort key.
#[verifier::rlimit(100)]
#[verifier::spinoff_prover]
pub fn retrieve_instances(st: &Store, opts: &FilterOptions) -> (r: Result<Listing, CoreError>)
    requires
        st.wf(),
    ensures
        r is Ok <==> opts.valid_spec(),
        r matches Err(e) ==> e.kind == ErrorKind::BadInput,
        r matches Ok(l) ==> {
            let total = count_included(*st, *opts, st.instances@.len() as int);
            let offset = (opts.page - 1) as int * opts.limit as int;
            &&& l.total_matches == total
            &&& opts.page >= 1 ==> l.rows@.len() == (if offset >= total {
                0int
            } else if offset + opts.limit <= total {
                opts.limit as int
            } else {
                total - offset
            })
            &&& forall|k: int|
                0 <= k < l.rows@.len() ==> #[trigger] l.rows@[k] < st.instances@.len()
                    && instance_included(*st, *opts, l.rows@[k] as int)
            &&& forall|p: int, q: int|
                0 <= p < q < l.rows@.len() ==> row_le(
                    *st,
                    *opts,
                    #[trigger] l.rows@[p] as int,
                    #[trigger] l.rows@[q] as int,
                )
            &&& l.rows@.no_duplicates()
            &&& (exists|full: Seq<usize>| listing_window(*st, *opts, full, l))
        },
{
    if let Err(e) = opts.check_validity() {
        return Err(e);
    }
    // gather the matching instance indexes
    let mut matching: Vec<usize> = Vec::new();
    let mut i: usize = 0;
    while i < st.instances.len()
        invariant
            st.wf(),
            0 <= i <= st.instances@.len(),
            matching@.len() == count_included(*st, *opts, i as int),
            forall|k: int|
                0 <= k < matching@.len() ==> #[trigger] matching@[k] < i
                    && instance_included(*st, *opts, matching@[k] as int),
            forall|j: int|
                0 <= j < i && instance_included(*st, *opts, j) ==> matching@.contains(j as usize),
            forall|p: int, q: int|
                0 <= p < q < matching@.len() ==> #[trigger] matching@[p] < #[trigger] matching@[q],
        decreases st.instances@.len() - i,
    {
        if instance_included_exec(st, opts, i) {
            let ghost old_m = matching@;
            matching.push(i);
            proof {
                assert forall|j: int|
                    0 <= j < i + 1 && instance_included(*st, *opts, j) implies matching@.contains(
                    j as usize,
                ) by {
                    if j < i {
                        let k0 = choose|k0: int| 0 <= k0 < old_m.len() && old_m[k0] == j as usize;
                        assert(matching@[k0] == j as usize);
                    } else {
                        assert(matching@[matching@.len() - 1] == j as usize);
                    }
                }
                assert forall|p: int, q: int| 0 <= p < q < matching@.len() implies
                    #[trigger] matching@[p] < #[trigger] matching@[q] by {
                    if q < old_m.len() {
                        assert(matching@[p] == old_m[p] && matching@[q] == old_m[q]);
                    } else {
                        assert(matching@[p] == old_m[p] && matching@[q] == i);
                    }
                }
            }
        }
        i = i + 1;
    }
    proof {
        broadcast use vstd::seq_lib::group_to_multiset_ensures;

        assert(matching@.no_duplicates()) by {
            assert forall|p: int, q: int|
                0 <= p < q < matching@.len() implies matching@[p] != matching@[q] by {}
        }
    }
    let total = matching.len() as u64;
    let ghost gmatching = matching@;
    // listing order
    let sorted = sort_rows(st, opts, matching);
    // pagination
    let page = if opts.page >= 1 {
        opts.page - 1
    } else {
        0
    };
    proof {
        assert((page as u128) * (opts.limit as u128) <= 0xFFFF_FFFF_FFFF_FFFFu128
            * 0xFFFF_FFFF_FFFF_FFFFu128) by (nonlinear_arith)
            requires
                (page as u128) <= 0xFFFF_FFFF_FFFF_FFFFu128,
                (opts.limit as u128) <= 0xFFFF_FFFF_FFFF_FFFFu128,
        {}
    }
    let offset128 = page as u128 * opts.limit as u128;
    let offset: usize = if offset128 > sorted.len() as u128 {
        sorted.len()
    } else {
        offset128 as usize
    };
    let end: usize = if sorted.len() - offset < opts.limit {
        sorted.len()
    } else {
        offset + opts.limit
    };
    let mut rows: Vec<usize> = Vec::new();
    let mut k: usize = offset;
    while k < end
        invariant
            offset <= k <= end <= sorted@.len(),
            rows@ == sorted@.subrange(offset as int, k as int),
        decreases end - k,
    {
        rows.push(sorted[k]);
        proof {
            assert(rows@ =~= sorted@.subrange(offset as int, k as int + 1));
        }
        k = k + 1;
    }
    proof {
        assert forall|p: int, q: int| 0 <= p < q < rows@.len() implies row_le(
            *st,
            *opts,
            rows@[p] as int,
            rows@[q] as int,
        ) by {
            assert(rows@[p] == sorted@[offset + p]);
            assert(rows@[q] == sorted@[offset + q]);
        }
        assert forall|k2: int| 0 <= k2 < rows@.len() implies #[trigger] rows@[k2]
            < st.instances@.len() && instance_included(*st, *opts, rows@[k2] as int) by {
            broadcast use vstd::seq_lib::group_to_multiset_ensures;

            assert(rows@[k2] == sorted@[offset + k2]);
            assert(sorted@.to_multiset().count(sorted@[offset + k2]) > 0);
            assert(sorted@.contains(sorted@[offset + k2]));
        }
    }
    let listing = Listing { total_matches: total, rows };
    proof {
        broadcast use vstd::seq_lib::group_to_multiset_ensures;

        gmatching.lemma_multiset_has_no_duplicates();
        sorted@.lemma_multiset_has_no_duplicates_conv();
        assert(sorted@.no_duplicates());
        assert forall|j: int| 0 <= j < st.instances@.len() implies (instance_included(
            *st,
            *opts,
            j,
        ) <==> sorted@.contains(j as usize)) by {
            if instance_included(*st, *opts, j) {
                assert(gmatching.contains(j as usize));
                assert(gmatching.to_multiset().count(j as usize) > 0);
                assert(sorted@.contains(j as usize));
            }
            if sorted@.contains(j as usize) {
                assert(sorted@.to_multiset().count(j as usize) > 0);
                assert(gmatching.contains(j as usize));
                let k0 = choose|k0: int|
                    0 <= k0 < gmatching.len() && gmatching[k0] == j as usize;
                assert(instance_included(*st, *opts, gmatching[k0] as int));
            }
        }
        assert forall|k2: int| 0 <= k2 < sorted@.len() implies #[trigger] sorted@[k2]
            < st.instances@.len() by {
            assert(sorted@.to_multiset().count(sorted@[k2]) > 0);
            assert(gmatching.contains(sorted@[k2]));
            let k0 = choose|k0: int| 0 <= k0 < gmatching.len() && gmatching[k0] == sorted@[k2];
        }
        assert(listing.rows@ == sorted@.subrange(offset as int, end as int));
        let gopts = *opts;
        let goff = if gopts.page >= 1 {
            (gopts.page - 1) as int * gopts.limit as int
        } else {
            0int
        };
        assert(page as int == if gopts.page >= 1 {
            (gopts.page - 1) as int
        } else {
            0int
        });
        assert(offset128 == (page as int) * (gopts.limit as int));
        assert(goff == (page as int) * (gopts.limit as int)) by (nonlinear_arith)
            requires
                goff == (if gopts.page >= 1 {
                    (gopts.page - 1) as int * gopts.limit as int
                } else {
                    0int
                }),
                page as int == (if gopts.page >= 1 {
                    (gopts.page - 1) as int
                } else {
                    0int
                }),
        {}
        assert(offset128 == goff);
        let gtotal = sorted@.len() as int;
        let gstart = if goff > gtotal {
            gtotal
        } else {
            goff
        };
        let gstop = if gstart + gopts.limit as int > gtotal {
            gtotal
        } else {
            gstart + gopts.limit as int
        };
        assert(offset as int == gstart);
        assert(end as int == gstop);
        assert(listing_window(*st, *opts, sorted@, listing));
        assert(listing.rows@.no_duplicates()) by {
            assert forall|p: int, q: int|
                0 <= p < q < listing.rows@.len() implies listing.rows@[p] != listing.rows@[q] by {
                assert(listing.rows@[p] == sorted@[offset + p]);
                assert(listing.rows@[q] == sorted@[offset + q]);
            }
        }
    }
    Ok(listing)
}

/// The instance columns the max-value summary reports.
#[derive(Debug, Clone, Copy, PartialEq, Eq, Structural)]
pub enum MaxCol {
    Nodes,
    Edges,
    BestScore,
    MinDeg,
    MaxDeg,
    NumCcs,
    NodesLargestCc,
    Treewidth,
}

/// The value of one summary column on one instance row.
pub open spec fn col_val(row: InstanceRow, c: MaxCol) -> Option<u64> {
    match c {
        MaxCol::Nodes => Option::Some(row.nodes as u64),
        MaxCol::Edges => Option::Some(row.edges),
        MaxCol::BestScore => opt_u32_u64(row.best_score),
        MaxCol::MinDeg => opt_u32_u64(row.min_deg),
        MaxCol::MaxDeg => opt_u32_u64(row.max_deg),
        MaxCol::NumCcs => opt_u32_u64(row.num_ccs),
        MaxCol::NodesLargestCc => opt_u32_u64(row.nodes_largest_cc),
        MaxCol::Treewidth => opt_u32_u64(row.treewidth),
    }
}

/// The larger of two optional values, absent values ignored.
pub open spec fn opt_max(a: Option<u64>, b: Option<u64>) -> Option<u64> {
    match (a, b) {
        (Option::None, x) => x,
        (x, Option::None) => x,
        (Option::Some(x), Option::Some(y)) => if x >= y {
            Option::Some(x)
        } else {
            Option::Some(y)
        },
    }
}

/// The maximum of one summary column over the first `upto` instances.
pub open spec fn col_max(insts: Seq<InstanceRow>, c: MaxCol, upto: int) -> Option<u64>
    decreases upto,
{
    if upto <= 0 {
        Option::None
    } else {
        opt_max(col_max(insts, c, upto - 1), col_val(insts[upto - 1], c))
    }
}

/// The overlay columns of the summary; the score difference may be
/// negative when a run beat the recorded best, which the store invariants
/// rule out.
#[derive(Debug, Clone, Copy, PartialEq, Eq, Structural)]
pub enum OverlayCol {
    Score,
    ScoreDiff,
    SecondsComputed,
}

/// The overlay value of one instance under a run: its solution's score,
/// the score difference against the best, or the computing time.
pub open spec fn overlay_val(st: Store, run: u128, i: int, c: OverlayCol) -> Option<i64> {
    if has_overlay_row(st.solutions@, run, st.instances@[i].iid) {
        let sol = st.solutions@[overlay_ix(st.solutions@, run, st.instances@[i].iid)];
        match c {
            OverlayCol::Score => (match sol.score {
                Option::Some(s) => Option::Some(s as i64),
                Option::None => Option::None,
            }),
            OverlayCol::ScoreDiff => (match (sol.score, st.instances@[i].best_score) {
                (Option::Some(s), Option::Some(b)) => Option::Some((s - b) as i64),
                _ => Option::None,
            }),
            OverlayCol::SecondsComputed => (match sol.seconds_computed {
                Option::Some(t) => Option::Some(t as i64),
                Option::None => Option::None,
            }),
        }
    } else {
        Option::None
    }
}

pub open spec fn opt_max_i64(a: Option<i64>, b: Option<i64>) -> Option<i64> {
    match (a, b) {
        (Option::None, x) => x,
        (x, Option::None) => x,
        (Option::Some(x), Option::Some(y)) => if x >= y {
            Option::Some(x)
        } else {
            Option::Some(y)
        },
    }
}

/// The maximum of one overlay column over the first `upto` instances.
pub open spec fn overlay_max(st: Store, run: u128, c: OverlayCol, upto: int) -> Option<i64>
    decreases upto,
{
    if upto <= 0 {
        Option::None
    } else {
        opt_max_i64(overlay_max(st, run, c, upto - 1), overlay_val(st, run, upto - 1, c))
    }
}

/// The column maxima the listing can include.
#[derive(Debug)]
pub struct MaxValues {
    pub nodes: Option<u64>,
    pub edges: Option<u64>,
    pub best_score: Option<u64>,
    pub min_deg: Option<u64>,
    pub max_deg: Option<u64>,
    pub num_ccs: Option<u64>,
    pub nodes_largest_cc: Option<u64>,
    pub treewidth: Option<u64>,
    pub score: Option<i64>,
    pub score_diff: Option<i64>,
    pub seconds_computed: Option<i64>,
}

fn opt_max_exec(a: Option<u64>, b: Option<u64>) -> (r: Option<u64>)
    ensures
        r == opt_max(a, b),
{
    match (a, b) {
        (None, x) => x,
        (x, None) => x,
        (Some(x), Some(y)) => {
            if x >= y {
                Some(x)
            } else {
                Some(y)
            }
        },
    }
}

fn opt_max_i64_exec(a: Option<i64>, b: Option<i64>) -> (r: Option<i64>)
    ensures
        r == opt_max_i64(a, b),
{
    match (a, b) {
        (None, x) => x,
        (x, None) => x,
        (Some(x), Some(y)) => {
            if x >= y {
                Some(x)
            } else {
                Some(y)
            }
        },
    }
}

fn col_val_exec(row: &InstanceRow, c: MaxCol) -> (r: Option<u64>)
    ensures
        r == col_val(*row, c),
{
    match c {
        MaxCol::Nodes => Some(row.nodes as u64),
        MaxCol::Edges => Some(row.edges),
        MaxCol::BestScore => match row.best_score {
            Some(x) => Some(x as u64),
            None => None,
        },
        MaxCol::MinDeg => match row.min_deg {
            Some(x) => Some(x as u64),
            None => None,
        },
        MaxCol::MaxDeg => match row.max_deg {
            Some(x) => Some(x as u64),
            None => None,
        },
        MaxCol::NumCcs => match row.num_ccs {
            Some(x) => Some(x as u64),
            None => None,
        },
        MaxCol::NodesLargestCc => match row.nodes_largest_cc {
            Some(x) => Some(x as u64),
            None => None,
        },
        MaxCol::Treewidth => match row.treewidth {
            Some(x) => Some(x as u64),
            None => None,
        },
    }
}

/// The value of one summary column on the instance at index `i`, under
/// the aggregation scope: with a run given, instances outside the run's
/// join contribute nothing.
pub open spec fn scoped_col_val(st: Store, scope: Option<u128>, i: int, c: MaxCol) -> Option<u64> {
    match scope {
        Option::Some(run) => if has_overlay_row(st.solutions@, run, st.instances@[i].iid) {
            col_val(st.instances@[i], c)
        } else {
            Option::None
        },
        Option::None => col_val(st.instances@[i], c),
    }
}

/// The maximum of one summary column over the first `upto` instances of
/// the scope.
pub open spec fn scoped_col_max(st: Store, scope: Option<u128>, c: MaxCol, upto: int) -> Option<
    u64,
>
    decreases upto,
{
    if upto <= 0 {
        Option::None
    } else {
        opt_max(scoped_col_max(st, scope, c, upto - 1), scoped_col_val(st, scope, upto - 1, c))
    }
}

/// The maximum of one summary column over every instance of the scope.
fn scoped_col_max_exec(st: &Store, scope: Option<u128>, c: MaxCol) -> (r: Option<u64>)
    requires
        st.wf(),
    ensures
        r == scoped_col_max(*st, scope, c, st.instances@.len() as int),
{
    let mut acc: Option<u64> = None;
    let mut i: usize = 0;
    while i < st.instances.len()
        invariant
            st.wf(),
            0 <= i <= st.instances@.len(),
            acc == scoped_col_max(*st, scope, c, i as int),
        decreases st.instances@.len() - i,
    {
        let in_scope = match scope {
            Some(run) => st.has_pair(run, st.instances[i].iid),
            None => true,
        };
        let v = if in_scope {
            col_val_exec(&st.instances[i], c)
        } else {
            None
        };
        acc = opt_max_exec(acc, v);
        i = i + 1;
    }
    acc
}

/// The maximum of one overlay column over every instance under a run.
fn overlay_max_exec(st: &Store, run: u128, c: OverlayCol) -> (r: Option<i64>)
    requires
        st.wf(),
    ensures
        r == overlay_max(*st, run, c, st.instances@.len() as int),
{
    let mut acc: Option<i64> = None;
    let mut i: usize = 0;
    while i < st.instances.len()
        invariant
            st.wf(),
            0 <= i <= st.instances@.len(),
            acc == overlay_max(*st, run, c, i as int),
        decreases st.instances@.len() - i,
    {
        let v: Option<i64> = match find_overlay(st, run, st.instances[i].iid) {
            Some(sidx) => {
                let sol = &st.solutions[sidx];
                match c {
                    OverlayCol::Score => match sol.score {
                        Some(s) => Some(s as i64),
                        None => None,
                    },
                    OverlayCol::ScoreDiff => match (&sol.score, &st.instances[i].best_score) {
                        (Some(s), Some(b)) => Some(*s as i64 - *b as i64),
                        _ => None,
                    },
                    OverlayCol::SecondsComputed => match sol.seconds_computed {
                        Some(t) => Some(t as i64),
                        None => None,
                    },
                }
            },
            None => None,
        };
        acc = opt_max_i64_exec(acc, v);
        i = i + 1;
    }
    acc
}

/// Whether the summary's overlay is live: both identifiers are present
/// and the run belongs to the named solver, as the join requires.
pub open spec fn overlay_live(st: Store, opts: FilterOptions) -> bool {
    &&& opts.run is Some
    &&& opts.solver is Some
    &&& crate::runs::run_belongs(st, opts.run->Some_0, opts.solver->Some_0)
}

/// Both overlay identifiers are present, whether or not the run belongs
/// to the solver.
pub open spec fn has_full_overlay(opts: FilterOptions) -> bool {
    opts.run is Some && opts.solver is Some
}

/// The structural fields of the summary all equal the scoped maxima.
pub open spec fn max_values_match(st: Store, scope: Option<u128>, mv: MaxValues) -> bool {
    let n = st.instances@.len() as int;
    &&& mv.nodes == scoped_col_max(st, scope, MaxCol::Nodes, n)
    &&& mv.edges == scoped_col_max(st, scope, MaxCol::Edges, n)
    &&& mv.best_score == scoped_col_max(st, scope, MaxCol::BestScore, n)
    &&& mv.min_deg == scoped_col_max(st, scope, MaxCol::MinDeg, n)
    &&& mv.max_deg == scoped_col_max(st, scope, MaxCol::MaxDeg, n)
    &&& mv.num_ccs == scoped_col_max(st, scope, MaxCol::NumCcs, n)
    &&& mv.nodes_largest_cc == scoped_col_max(st, scope, MaxCol::NodesLargestCc, n)
    &&& mv.treewidth == scoped_col_max(st, scope, MaxCol::Treewidth, n)
}

/// The max-value summary of the listing. Without an overlay the
/// structural maxima range over every instance; under a live overlay the
/// aggregation joins the run's solutions, so the structural maxima range
/// over the instances that run answered, next to the run's score, score
/// difference and computing-time maxima; a named overlay whose run does
/// not belong to the solver joins nothing and every field is absent. A
/// negative maximal score difference would contradict the best-score
/// invariant and is reported as an integrity failure.
pub fn compute_max_values(st: &Store, opts: &FilterOptions) -> (r: Result<MaxValues, CoreError>)
    requires
        st.wf(),
    ensures
        r is Ok <==> !(overlay_live(*st, *opts) && (overlay_max(
            *st,
            opts.run->Some_0,
            OverlayCol::ScoreDiff,
            st.instances@.len() as int,
        ) matches Some(d) && d < 0)),
        r matches Ok(mv) ==> {
            let n = st.instances@.len() as int;
            &&& (!has_full_overlay(*opts) ==> max_values_match(*st, None, mv))
            &&& (overlay_live(*st, *opts) ==> max_values_match(*st, opts.run, mv) && mv.score
                == overlay_max(*st, opts.run->Some_0, OverlayCol::Score, n) && mv.score_diff
                == overlay_max(*st, opts.run->Some_0, OverlayCol::ScoreDiff, n)
                && mv.seconds_computed == overlay_max(
                *st,
                opts.run->Some_0,
                OverlayCol::SecondsComputed,
                n,
            ))
            &&& (has_full_overlay(*opts) && !overlay_live(*st, *opts) ==> mv.nodes is None
                && mv.edges is None && mv.best_score is None && mv.min_deg is None && mv.max_deg
                is None && mv.num_ccs is None && mv.nodes_largest_cc is None && mv.treewidth
                is None)
            &&& (!overlay_live(*st, *opts) ==> mv.score is None && mv.score_diff is None
                && mv.seconds_computed is None)
        },
        r matches Err(e) ==> e.kind == ErrorKind::Integrity,
{
    match (opts.run, opts.solver) {
        (Some(run), Some(solver)) => {
            if crate::runs::run_belongs_exec(st, run, solver) {
                let d = overlay_max_exec(st, run, OverlayCol::ScoreDiff);
                match d {
                    Some(x) if x < 0 => {
                        return Err(
                            CoreError::new(ErrorKind::Integrity, "score_diff is negative"),
                        );
                    },
                    _ => {},
                }
                Ok(
                    MaxValues {
                        nodes: scoped_col_max_exec(st, Some(run), MaxCol::Nodes),
                        edges: scoped_col_max_exec(st, Some(run), MaxCol::Edges),
                        best_score: scoped_col_max_exec(st, Some(run), MaxCol::BestScore),
                        min_deg: scoped_col_max_exec(st, Some(run), MaxCol::MinDeg),
                        max_deg: scoped_col_max_exec(st, Some(run), MaxCol::MaxDeg),
                        num_ccs: scoped_col_max_exec(st, Some(run), MaxCol::NumCcs),
                        nodes_largest_cc: scoped_col_max_exec(st, Some(run), MaxCol::NodesLargestCc),
                        treewidth: scoped_col_max_exec(st, Some(run), MaxCol::Treewidth),
                        score: overlay_max_exec(st, run, OverlayCol::Score),
                        score_diff: d,
                        seconds_computed: overlay_max_exec(st, run, OverlayCol::SecondsComputed),
                    },
                )
            } else {
                // the join is empty: nothing to aggregate
                Ok(
                    MaxValues {
                        nodes: None,
                        edges: None,
                        best_score: None,
                        min_deg: None,
                        max_deg: None,
                        num_ccs: None,
                        nodes_largest_cc: None,
                        treewidth: None,
                        score: None,
                        score_diff: None,
                        seconds_computed: None,
                    },
                )
            }
        },
        _ => Ok(
            MaxValues {
                nodes: scoped_col_max_exec(st, None, MaxCol::Nodes),
                edges: scoped_col_max_exec(st, None, MaxCol::Edges),
                best_score: scoped_col_max_exec(st, None, MaxCol::BestScore),
                min_deg: scoped_col_max_exec(st, None, MaxCol::MinDeg),
                max_deg: scoped_col_max_exec(st, None, MaxCol::MaxDeg),
                num_ccs: scoped_col_max_exec(st, None, MaxCol::NumCcs),
                nodes_largest_cc: scoped_col_max_exec(st, None, MaxCol::NodesLargestCc),
                treewidth: scoped_col_max_exec(st, None, MaxCol::Treewidth),
                score: None,
                score_diff: None,
                seconds_computed: None,
            },
        ),
    }
}

/// The matching instance indexes in listing order, unpaginated: the bulk
/// id-list download.
pub fn instance_id_list(st: &Store, opts: &FilterOptions) -> (r: Result<Vec<usize>, CoreError>)
    requires
        st.wf(),
    ensures
        r is Ok <==> opts.valid_spec(),
        r matches Err(e) ==> e.kind == ErrorKind::BadInput,
        r matches Ok(ids) ==> {
            &&& ids@.len() == count_included(*st, *opts, st.instances@.len() as int)
            &&& ids@.no_duplicates()
            &&& forall|k: int|
                0 <= k < ids@.len() ==> #[trigger] ids@[k] < st.instances@.len()
                    && instance_included(*st, *opts, ids@[k] as int)
            &&& (forall|j: int|
                0 <= j < st.instances@.len() ==> (instance_included(*st, *opts, j)
                    <==> ids@.contains(j as usize)))
            &&& forall|p: int, q: int|
                0 <= p < q < ids@.len() ==> row_le(
                    *st,
                    *opts,
                    #[trigger] ids@[p] as int,
                    #[trigger] ids@[q] as int,
                )
        },
{
    if let Err(e) = opts.check_validity() {
        return Err(e);
    }
    let mut matching: Vec<usize> = Vec::new();
    let mut i: usize = 0;
    while i < st.instances.len()
        invariant
            st.wf(),
            0 <= i <= st.instances@.len(),
            matching@.len() == count_included(*st, *opts, i as int),
            forall|k: int|
                0 <= k < matching@.len() ==> #[trigger] matching@[k] < i
                    && instance_included(*st, *opts, matching@[k] as int),
            forall|j: int|
                0 <= j < i && instance_included(*st, *opts, j) ==> matching@.contains(j as usize),
            forall|p: int, q: int|
                0 <= p < q < matching@.len() ==> #[trigger] matching@[p] < #[trigger] matching@[q],
        decreases st.instances@.len() - i,
    {
        if instance_included_exec(st, opts, i) {
            let ghost old_m = matching@;
            matching.push(i);
            proof {
                assert forall|j: int|
                    0 <= j < i + 1 && instance_included(*st, *opts, j) implies matching@.contains(
                    j as usize,
                ) by {
                    if j < i {
                        let k0 = choose|k0: int| 0 <= k0 < old_m.len() && old_m[k0] == j as usize;
                        assert(matching@[k0] == j as usize);
                    } else {
                        assert(matching@[matching@.len() - 1] == j as usize);
                    }
                }
                assert forall|p: int, q: int| 0 <= p < q < matching@.len() implies
                    #[trigger] matching@[p] < #[trigger] matching@[q] by {
                    if q < old_m.len() {
                        assert(matching@[p] == old_m[p] && matching@[q] == old_m[q]);
                    } else {
                        assert(matching@[p] == old_m[p] && matching@[q] == i);
                    }
                }
            }
        }
        i = i + 1;
    }
    proof {
        broadcast use vstd::seq_lib::group_to_multiset_ensures;

        assert(matching@.no_duplicates()) by {
            assert forall|p: int, q: int|
                0 <= p < q < matching@.len() implies matching@[p] != matching@[q] by {}
        }
    }
    let ghost gmatching2 = matching@;
    let sorted = sort_rows(st, opts, matching);
    proof {
        broadcast use vstd::seq_lib::group_to_multiset_ensures;

        assert forall|k2: int| 0 <= k2 < sorted@.len() implies #[trigger] sorted@[k2]
            < st.instances@.len() && instance_included(*st, *opts, sorted@[k2] as int) by {
            assert(sorted@.to_multiset().count(sorted@[k2]) > 0);
            assert(sorted@.contains(sorted@[k2]));
        }
        gmatching2.lemma_multiset_has_no_duplicates();
        sorted@.lemma_multiset_has_no_duplicates_conv();
        assert(sorted@.no_duplicates());
        assert forall|j: int| 0 <= j < st.instances@.len() implies (instance_included(
            *st,
            *opts,
            j,
        ) <==> sorted@.contains(j as usize)) by {
            if instance_included(*st, *opts, j) {
                assert(gmatching2.contains(j as usize));
                assert(gmatching2.to_multiset().count(j as usize) > 0);
                assert(sorted@.contains(j as usize));
            }
            if sorted@.contains(j as usize) {
                assert(sorted@.to_multiset().count(j as usize) > 0);
                assert(gmatching2.contains(j as usize));
                let k0 = choose|k0: int|
                    0 <= k0 < gmatching2.len() && gmatching2[k0] == j as usize;
                assert(instance_included(*st, *opts, gmatching2[k0] as int));
            }
        }
    }
    Ok(sorted)
}

} // verus!
