//! Solver-run endpoints: per-run outcome roll-ups, run annotation, the
//! cached-hash list of a solver, per-instance score histograms, and the
//! download projections.
use vstd::prelude::*;

use crate::err::{CoreError, ErrorKind};
use crate::store::{has_run, inst_ix, sol_hash_view, SolutionRow, SolverResultType, Store};

verus! {

/// The outcome classes of the per-run roll-up. A valid solution matching
/// its instance's best score is optimal; a valid one above it, or a
/// non-competitive one, is suboptimal.
#[derive(Debug, Clone, Copy, PartialEq, Eq, Structural)]
pub enum OutcomeClass {
    Optimal,
    Suboptimal,
    Infeasible,
    Error,
    Timeout,
    Incomplete,
}

/// The best score of the instance a solution belongs to.
pub open spec fn best_of(st: Store, sol: SolutionRow) -> Option<u32> {
    st.instances@[inst_ix(st, sol.instance_iid)].best_score
}

/// Whether a solution row falls into an outcome class.
pub open spec fn in_class(st: Store, sol: SolutionRow, cls: OutcomeClass) -> bool {
    match cls {
        OutcomeClass::Optimal => sol.error_code == SolverResultType::Valid && sol.score is Some
            && best_of(st, sol) == sol.score,
        OutcomeClass::Suboptimal => (sol.error_code == SolverResultType::Valid && !(sol.score
            is Some && best_of(st, sol) == sol.score)) || sol.error_code
            == SolverResultType::NonCompetitive,
        OutcomeClass::Infeasible => sol.error_code == SolverResultType::Infeasible,
        OutcomeClass::Error => sol.error_code == SolverResultType::SyntaxError,
        OutcomeClass::Timeout => sol.error_code == SolverResultType::Timeout,
        OutcomeClass::Incomplete => sol.error_code == SolverResultType::IncompleteOutput,
    }
}

/// Whether a solution row belongs to the roll-up of one run, optionally
/// restricted to the instances another run touched.
pub open spec fn in_rollup(st: Store, sol: SolutionRow, run_uuid: u128, inst_of: Option<u128>) -> bool {
    &&& sol.sr_uuid == run_uuid
    &&& (inst_of matches Some(other) ==> crate::store::has_run_pair(
        st.solutions@,
        other,
        sol.instance_iid,
    ))
}

/// Saturating addition of the computing times.
pub open spec fn sat_add(a: u64, b: u64) -> u64 {
    if a + b > u64::MAX {
        u64::MAX
    } else {
        (a + b) as u64
    }
}

/// Count of the run's solutions in one class, over the first `upto` rows.
pub open spec fn class_count(
    st: Store,
    run_uuid: u128,
    inst_of: Option<u128>,
    cls: OutcomeClass,
    upto: int,
) -> int
    decreases upto,
{
    if upto <= 0 {
        0
    } else {
        class_count(st, run_uuid, inst_of, cls, upto - 1) + if in_rollup(
            st,
            st.solutions@[upto - 1],
            run_uuid,
            inst_of,
        ) && in_class(st, st.solutions@[upto - 1], cls) {
            1int
        } else {
            0int
        }
    }
}

/// Saturating sum of the run's computing times in one class.
pub open spec fn class_seconds(
    st: Store,
    run_uuid: u128,
    inst_of: Option<u128>,
    cls: OutcomeClass,
    upto: int,
) -> u64
    decreases upto,
{
    if upto <= 0 {
        0
    } else {
        let rest = class_seconds(st, run_uuid, inst_of, cls, upto - 1);
        if in_rollup(st, st.solutions@[upto - 1], run_uuid, inst_of) && in_class(
            st,
            st.solutions@[upto - 1],
            cls,
        ) {
            match st.solutions@[upto - 1].seconds_computed {
                Option::Some(t) => sat_add(rest, t),
                Option::None => rest,
            }
        } else {
            rest
        }
    }
}

/// The roll-up equals the per-class counts and saturating time sums of
/// the run over the whole solution table.
pub open spec fn counts_match(st: Store, run_uuid: u128, inst_of: Option<u128>, c: RunCounts) -> bool {
    let n = st.solutions@.len() as int;
    &&& c.num_optimal == class_count(st, run_uuid, inst_of, OutcomeClass::Optimal, n)
    &&& c.num_suboptimal == class_count(st, run_uuid, inst_of, OutcomeClass::Suboptimal, n)
    &&& c.num_infeasible == class_count(st, run_uuid, inst_of, OutcomeClass::Infeasible, n)
    &&& c.num_error == class_count(st, run_uuid, inst_of, OutcomeClass::Error, n)
    &&& c.num_timeout == class_count(st, run_uuid, inst_of, OutcomeClass::Timeout, n)
    &&& c.num_incomplete == class_count(st, run_uuid, inst_of, OutcomeClass::Incomplete, n)
    &&& c.seconds_optimal == class_seconds(st, run_uuid, inst_of, OutcomeClass::Optimal, n)
    &&& c.seconds_suboptimal == class_seconds(st, run_uuid, inst_of, OutcomeClass::Suboptimal, n)
    &&& c.seconds_infeasible == class_seconds(st, run_uuid, inst_of, OutcomeClass::Infeasible, n)
    &&& c.seconds_error == class_seconds(st, run_uuid, inst_of, OutcomeClass::Error, n)
    &&& c.seconds_timeout == class_seconds(st, run_uuid, inst_of, OutcomeClass::Timeout, n)
    &&& c.seconds_incomplete == class_seconds(st, run_uuid, inst_of, OutcomeClass::Incomplete, n)
}

/// The roll-up of one run: a count and a saturating time sum per class.
pub struct RunCounts {
    pub num_optimal: u64,
    pub num_suboptimal: u64,
    pub num_infeasible: u64,
    pub num_error: u64,
    pub num_timeout: u64,
    pub num_incomplete: u64,
    pub seconds_optimal: u64,
    pub seconds_suboptimal: u64,
    pub seconds_infeasible: u64,
    pub seconds_error: u64,
    pub seconds_timeout: u64,
    pub seconds_incomplete: u64,
}

/// Classifies one solution row.
fn classify(st: &Store, sol: &SolutionRow) -> (r: OutcomeClass)
    requires
        st.wf(),
        crate::store::has_instance(st.instances@, sol.instance_iid),
    ensures
        in_class(*st, *sol, r),
        forall|c: OutcomeClass| in_class(*st, *sol, c) ==> c == r,
{
    match sol.error_code {
        SolverResultType::Valid => {
            let optimal = match (&sol.score, st.find_instance(sol.instance_iid)) {
                (Some(sc), Some(idx)) => {
                    proof {
                        let i0 = inst_ix(*st, sol.instance_iid);
                        assert(0 <= i0 < st.instances@.len() && st.instances@[i0].iid
                            == sol.instance_iid) by {
                            assert(st.instances@[idx as int].iid == sol.instance_iid);
                        }
                        if i0 != idx as int {
                            assert(st.instances@[i0].iid != st.instances@[idx as int].iid);
                        }
                    }
                    match st.instances[idx].best_score {
                        Some(b) => b == *sc,
                        None => false,
                    }
                },
                (_, None) => {
                    proof {
                        assert(false);
                    }
                    false
                },
                _ => false,
            };
            if optimal {
                OutcomeClass::Optimal
            } else {
                OutcomeClass::Suboptimal
            }
        },
        SolverResultType::NonCompetitive => OutcomeClass::Suboptimal,
        SolverResultType::Infeasible => OutcomeClass::Infeasible,
        SolverResultType::SyntaxError => OutcomeClass::Error,
        SolverResultType::Timeout => OutcomeClass::Timeout,
        SolverResultType::IncompleteOutput => OutcomeClass::Incomplete,
    }
}

/// Whether a solution row belongs to the roll-up.
fn in_rollup_exec(st: &Store, i: usize, run_uuid: u128, inst_of: &Option<u128>) -> (r: bool)
    requires
        st.wf(),
        i < st.solutions@.len(),
    ensures
        r == in_rollup(*st, st.solutions@[i as int], run_uuid, *inst_of),
{
    if st.solutions[i].sr_uuid != run_uuid {
        return false;
    }
    match inst_of {
        Some(other) => st.has_pair(*other, st.solutions[i].instance_iid),
        None => true,
    }
}

/// Computes the per-class counts and time sums of one run: valid results
/// split into optimal and suboptimal against each instance's best score,
/// and the typed negative outcomes counted apart.
#[verifier::rlimit(100)]
pub fn solution_count(st: &Store, run_uuid: u128, instances_of: Option<u128>) -> (r: RunCounts)
    requires
        st.wf(),
    ensures
        counts_match(*st, run_uuid, instances_of, r),
{
    let mut counts = RunCounts {
        num_optimal: 0,
        num_suboptimal: 0,
        num_infeasible: 0,
        num_error: 0,
        num_timeout: 0,
        num_incomplete: 0,
        seconds_optimal: 0,
        seconds_suboptimal: 0,
        seconds_infeasible: 0,
        seconds_error: 0,
        seconds_timeout: 0,
        seconds_incomplete: 0,
    };
    let mut i: usize = 0;
    while i < st.solutions.len()
        invariant
            st.wf(),
            0 <= i <= st.solutions@.len(),
            counts.num_optimal == class_count(
                *st,
                run_uuid,
                instances_of,
                OutcomeClass::Optimal,
                i as int,
            ),
            counts.num_suboptimal == class_count(
                *st,
                run_uuid,
                instances_of,
                OutcomeClass::Suboptimal,
                i as int,
            ),
            counts.num_infeasible == class_count(
                *st,
                run_uuid,
                instances_of,
                OutcomeClass::Infeasible,
                i as int,
            ),
            counts.num_error == class_count(
                *st,
                run_uuid,
                instances_of,
                OutcomeClass::Error,
                i as int,
            ),
            counts.num_timeout == class_count(
                *st,
                run_uuid,
                instances_of,
                OutcomeClass::Timeout,
                i as int,
            ),
            counts.num_incomplete == class_count(
                *st,
                run_uuid,
                instances_of,
                OutcomeClass::Incomplete,
                i as int,
            ),
            counts.seconds_optimal == class_seconds(
                *st,
                run_uuid,
                instances_of,
                OutcomeClass::Optimal,
                i as int,
            ),
            counts.seconds_suboptimal == class_seconds(
                *st,
                run_uuid,
                instances_of,
                OutcomeClass::Suboptimal,
                i as int,
            ),
            counts.seconds_infeasible == class_seconds(
                *st,
                run_uuid,
                instances_of,
                OutcomeClass::Infeasible,
                i as int,
            ),
            counts.seconds_error == class_seconds(
                *st,
                run_uuid,
                instances_of,
                OutcomeClass::Error,
                i as int,
            ),
            counts.seconds_timeout == class_seconds(
                *st,
                run_uuid,
                instances_of,
                OutcomeClass::Timeout,
                i as int,
            ),
            counts.seconds_incomplete == class_seconds(
                *st,
                run_uuid,
                instances_of,
                OutcomeClass::Incomplete,
                i as int,
            ),
            counts.num_optimal <= i && counts.num_suboptimal <= i && counts.num_infeasible <= i
                && counts.num_error <= i && counts.num_timeout <= i && counts.num_incomplete <= i,
        decreases st.solutions@.len() - i,
    {
        if in_rollup_exec(st, i, run_uuid, &instances_of) {
            let cls = classify(st, &st.solutions[i]);
            let secs = match st.solutions[i].seconds_computed {
                Some(t) => t,
                None => 0,
            };
            let has_secs = st.solutions[i].seconds_computed.is_some();
            match cls {
                OutcomeClass::Optimal => {
                    counts.num_optimal = counts.num_optimal + 1;
                    if has_secs {
                        counts.seconds_optimal = sat_add_exec(counts.seconds_optimal, secs);
                    }
                },
                OutcomeClass::Suboptimal => {
                    counts.num_suboptimal = counts.num_suboptimal + 1;
                    if has_secs {
                        counts.seconds_suboptimal = sat_add_exec(counts.seconds_suboptimal, secs);
                    }
                },
                OutcomeClass::Infeasible => {
                    counts.num_infeasible = counts.num_infeasible + 1;
                    if has_secs {
                        counts.seconds_infeasible = sat_add_exec(counts.seconds_infeasible, secs);
                    }
                },
                OutcomeClass::Error => {
                    counts.num_error = counts.num_error + 1;
                    if has_secs {
                        counts.seconds_error = sat_add_exec(counts.seconds_error, secs);
                    }
                },
                OutcomeClass::Timeout => {
                    counts.num_timeout = counts.num_timeout + 1;
                    if has_secs {
                        counts.seconds_timeout = sat_add_exec(counts.seconds_timeout, secs);
                    }
                },
                OutcomeClass::Incomplete => {
                    counts.num_incomplete = counts.num_incomplete + 1;
                    if has_secs {
                        counts.seconds_incomplete = sat_add_exec(counts.seconds_incomplete, secs);
                    }
                },
            }
        }
        i = i + 1;
    }
    counts
}

/// Saturating addition.
fn sat_add_exec(a: u64, b: u64) -> (r: u64)
    ensures
        r == sat_add(a, b),
{
    if a > u64::MAX - b {
        u64::MAX
    } else {
        a + b
    }
}

/// Whether one run row passes the listing's filters: the solver owns it,
/// it matches the optional run filter, and hidden runs show only on
/// request.
pub open spec fn run_listed(
    st: Store,
    solver: u128,
    run: Option<u128>,
    include_hidden: bool,
    j: int,
) -> bool {
    &&& st.solver_runs@[j].solver_uuid == Some(solver)
    &&& (run matches Some(ru) ==> st.solver_runs@[j].run_uuid == ru)
    &&& (!include_hidden ==> !st.solver_runs@[j].hide)
}

/// Sorts run-row indexes by creation time, newest first.
#[verifier::rlimit(100)]
fn sort_runs_newest_first(st: &Store, input: Vec<usize>) -> (r: Vec<usize>)
    requires
        forall|k: int| 0 <= k < input@.len() ==> #[trigger] input@[k] < st.solver_runs@.len(),
    ensures
        r@.to_multiset() == input@.to_multiset(),
        r@.len() == input@.len(),
        forall|k: int| 0 <= k < r@.len() ==> #[trigger] r@[k] < st.solver_runs@.len(),
        forall|p: int, q: int|
            0 <= p < q < r@.len() ==> st.solver_runs@[#[trigger] r@[p] as int].created_at
                >= st.solver_runs@[#[trigger] r@[q] as int].created_at,
{
    broadcast use vstd::seq_lib::group_to_multiset_ensures;

    let mut out: Vec<usize> = Vec::new();
    let mut i: usize = 0;
    proof {
        assert(input@.subrange(0, 0) =~= Seq::<usize>::empty());
        assert(out@.to_multiset() =~= input@.subrange(0, 0).to_multiset());
    }
    while i < input.len()
        invariant
            0 <= i <= input@.len(),
            forall|k: int| 0 <= k < input@.len() ==> #[trigger] input@[k] < st.solver_runs@.len(),
            forall|k: int| 0 <= k < out@.len() ==> #[trigger] out@[k] < st.solver_runs@.len(),
            out@.to_multiset() == input@.subrange(0, i as int).to_multiset(),
            out@.len() == i,
            forall|p: int, q: int|
                0 <= p < q < out@.len() ==> st.solver_runs@[#[trigger] out@[p] as int].created_at
                    >= st.solver_runs@[#[trigger] out@[q] as int].created_at,
        decreases input@.len() - i,
    {
        let x = input[i];
        let mut j: usize = 0;
        while j < out.len() && st.solver_runs[out[j]].created_at >= st.solver_runs[x].created_at
            invariant
                0 <= j <= out@.len(),
                x < st.solver_runs@.len(),
                forall|k: int| 0 <= k < out@.len() ==> #[trigger] out@[k] < st.solver_runs@.len(),
                forall|k: int|
                    0 <= k < j ==> st.solver_runs@[#[trigger] out@[k] as int].created_at
                        >= st.solver_runs@[x as int].created_at,
            decreases out@.len() - j,
        {
            j = j + 1;
        }
        let ghost old_out = out@;
        out.insert(j, x);
        proof {
            old_out.insert_ensures(j as int, x);
            assert forall|p: int, q: int| 0 <= p < q < out@.len() implies st.solver_runs@[
                #[trigger] out@[p] as int].created_at >= st.solver_runs@[
                #[trigger] out@[q] as int].created_at by {
                if q < j {
                    assert(out@[p] == old_out[p] && out@[q] == old_out[q]);
                } else if q == j {
                    assert(out@[q] == x && out@[p] == old_out[p]);
                } else if p < j {
                    assert(out@[p] == old_out[p] && out@[q] == old_out[q - 1]);
                } else if p == j {
                    assert(out@[p] == x && out@[q] == old_out[q - 1]);
                    assert(!(st.solver_runs@[old_out[j as int] as int].created_at
                        >= st.solver_runs@[x as int].created_at));
                } else {
                    assert(out@[p] == old_out[p - 1] && out@[q] == old_out[q - 1]);
                }
            }
            vstd::seq_lib::to_multiset_build(input@.subrange(0, i as int), x);
            assert(input@.subrange(0, i as int + 1) =~= input@.subrange(0, i as int).push(x));
            lemma_runs_insert_to_multiset(old_out, j as int, x);
        }
        i = i + 1;
    }
    proof {
        assert(input@.subrange(0, i as int) =~= input@);
    }
    out
}

proof fn lemma_runs_insert_to_multiset(s: Seq<usize>, i: int, a: usize)
    requires
        0 <= i <= s.len(),
    ensures
        s.insert(i, a).to_multiset() == s.to_multiset().insert(a),
{
    broadcast use vstd::seq_lib::group_to_multiset_ensures;

    let p = s.subrange(0, i);
    let q = s.subrange(i, s.len() as int);
    assert(s =~= p + q);
    vstd::seq_lib::lemma_multiset_commutative(p, q);
    vstd::seq_lib::lemma_multiset_commutative(p.push(a), q);
    assert(p.push(a).to_multiset() =~= p.to_multiset().insert(a));
    assert(s.insert(i, a).to_multiset() =~= s.to_multiset().insert(a));
}

/// The runs of one solver that the listing shows, newest first, each with
/// its roll-up: one entry for every run row passing the filters, none
/// twice, each carrying exactly that run's counts.
#[verifier::rlimit(100)]
pub fn solver_run_list(
    st: &Store,
    solver: u128,
    run: Option<u128>,
    instances_of: Option<u128>,
    include_hidden: bool,
) -> (r: Vec<(usize, RunCounts)>)
    requires
        st.wf(),
    ensures
        forall|k: int|
            0 <= k < r@.len() ==> {
                let idx = #[trigger] r@[k].0;
                &&& idx < st.solver_runs@.len()
                &&& run_listed(*st, solver, run, include_hidden, idx as int)
                &&& counts_match(
                    *st,
                    st.solver_runs@[idx as int].run_uuid,
                    instances_of,
                    r@[k].1,
                )
            },
        forall|j: int|
            0 <= j < st.solver_runs@.len() && run_listed(*st, solver, run, include_hidden, j)
                ==> (exists|k: int| 0 <= k < r@.len() && (#[trigger] r@[k].0) as int == j),
        forall|p: int, q: int| 0 <= p < q < r@.len() ==> (#[trigger] r@[p].0) != (#[trigger] r@[q].0),
        forall|p: int, q: int|
            0 <= p < q < r@.len() ==> st.solver_runs@[(#[trigger] r@[p].0) as int].created_at
                >= st.solver_runs@[(#[trigger] r@[q].0) as int].created_at,
{
    broadcast use vstd::seq_lib::group_to_multiset_ensures;

    // collect the matching run rows
    let mut idxs: Vec<usize> = Vec::new();
    let mut i: usize = 0;
    while i < st.solver_runs.len()
        invariant
            st.wf(),
            0 <= i <= st.solver_runs@.len(),
            forall|k: int|
                0 <= k < idxs@.len() ==> #[trigger] idxs@[k] < st.solver_runs@.len() && run_listed(
                    *st,
                    solver,
                    run,
                    include_hidden,
                    idxs@[k] as int,
                ),
            forall|j: int|
                0 <= j < i && run_listed(*st, solver, run, include_hidden, j) ==> (exists|k: int|
                    0 <= k < idxs@.len() && (#[trigger] idxs@[k]) as int == j),
            forall|k: int| 0 <= k < idxs@.len() ==> #[trigger] idxs@[k] < i,
            forall|p: int, q: int| 0 <= p < q < idxs@.len() ==> #[trigger] idxs@[p] < #[trigger] idxs@[q],
        decreases st.solver_runs@.len() - i,
    {
        let row = &st.solver_runs[i];
        let solver_ok = match row.solver_uuid {
            Some(s) => s == solver,
            None => false,
        };
        let run_ok = match run {
            Some(ru) => row.run_uuid == ru,
            None => true,
        };
        let hide_ok = include_hidden || !row.hide;
        if solver_ok && run_ok && hide_ok {
            let ghost old_idxs = idxs@;
            idxs.push(i);
            proof {
                assert forall|p: int, q: int| 0 <= p < q < idxs@.len() implies #[trigger] idxs@[p]
                    < #[trigger] idxs@[q] by {
                    if q < old_idxs.len() {
                        assert(idxs@[p] == old_idxs[p] && idxs@[q] == old_idxs[q]);
                    } else {
                        assert(idxs@[p] == old_idxs[p] && idxs@[q] == i);
                    }
                }
                assert forall|j: int|
                    0 <= j < i + 1 && run_listed(*st, solver, run, include_hidden, j) implies (
                exists|k: int| 0 <= k < idxs@.len() && (#[trigger] idxs@[k]) as int == j) by {
                    if j < i {
                        let k0 = choose|k0: int|
                            0 <= k0 < old_idxs.len() && (#[trigger] old_idxs[k0]) as int == j;
                        assert(idxs@[k0] as int == j);
                    } else {
                        assert(idxs@[idxs@.len() - 1] as int == j);
                    }
                }
            }
        }
        i = i + 1;
    }
    // newest first
    let ghost collected = idxs@;
    let sorted = sort_runs_newest_first(st, idxs);
    proof {
        assert forall|j: int|
            0 <= j < st.solver_runs@.len() && run_listed(*st, solver, run, include_hidden, j)
                implies (exists|k: int| 0 <= k < sorted@.len() && (#[trigger] sorted@[k]) as int
            == j) by {
            let k0 = choose|k0: int|
                0 <= k0 < collected.len() && (#[trigger] collected[k0]) as int == j;
            assert(collected.to_multiset().count(collected[k0]) > 0);
            assert(sorted@.contains(collected[k0]));
            let k1 = choose|k1: int| 0 <= k1 < sorted@.len() && sorted@[k1] == collected[k0];
            assert(sorted@[k1] as int == j);
        }
        assert(collected.no_duplicates()) by {
            assert forall|p: int, q: int|
                0 <= p < q < collected.len() implies collected[p] != collected[q] by {}
        }
        collected.lemma_multiset_has_no_duplicates();
        sorted@.lemma_multiset_has_no_duplicates_conv();
        assert(sorted@.no_duplicates());
        assert forall|k: int| 0 <= k < sorted@.len() implies run_listed(
            *st,
            solver,
            run,
            include_hidden,
            (#[trigger] sorted@[k]) as int,
        ) by {
            assert(sorted@.to_multiset().count(sorted@[k]) > 0);
            assert(collected.contains(sorted@[k]));
            let k0 = choose|k0: int| 0 <= k0 < collected.len() && collected[k0] == sorted@[k];
        }
    }
    // attach the roll-ups
    let mut out: Vec<(usize, RunCounts)> = Vec::new();
    let mut t: usize = 0;
    while t < sorted.len()
        invariant
            st.wf(),
            0 <= t <= sorted@.len(),
            out@.len() == t,
            forall|k: int| 0 <= k < sorted@.len() ==> #[trigger] sorted@[k] < st.solver_runs@.len()
                && run_listed(*st, solver, run, include_hidden, sorted@[k] as int),
            sorted@.no_duplicates(),
            forall|p: int, q: int|
                0 <= p < q < sorted@.len() ==> st.solver_runs@[#[trigger] sorted@[p] as int].created_at
                    >= st.solver_runs@[#[trigger] sorted@[q] as int].created_at,
            forall|j: int|
                0 <= j < st.solver_runs@.len() && run_listed(*st, solver, run, include_hidden, j)
                    ==> (exists|k: int| 0 <= k < sorted@.len() && (#[trigger] sorted@[k]) as int
                    == j),
            forall|k: int| 0 <= k < t ==> (#[trigger] out@[k].0) == sorted@[k],
            forall|k: int|
                0 <= k < t ==> counts_match(
                    *st,
                    st.solver_runs@[(#[trigger] out@[k].0) as int].run_uuid,
                    instances_of,
                    out@[k].1,
                ),
        decreases sorted@.len() - t,
    {
        let idx = sorted[t];
        let counts = solution_count(st, st.solver_runs[idx].run_uuid, instances_of);
        let ghost old_out = out@;
        out.push((idx, counts));
        proof {
            assert forall|k: int| 0 <= k < t + 1 implies (#[trigger] out@[k].0) == sorted@[k] by {
                if k < t {
                    assert(out@[k] == old_out[k]);
                }
            }
            assert forall|k: int| 0 <= k < t + 1 implies counts_match(
                *st,
                st.solver_runs@[(#[trigger] out@[k].0) as int].run_uuid,
                instances_of,
                out@[k].1,
            ) by {
                if k < t {
                    assert(out@[k] == old_out[k]);
                }
            }
        }
        t = t + 1;
    }
    proof {
        assert forall|j: int|
            0 <= j < st.solver_runs@.len() && run_listed(*st, solver, run, include_hidden, j)
                implies (exists|k: int| 0 <= k < out@.len() && (#[trigger] out@[k].0) as int == j)
            by {
            let k0 = choose|k0: int|
                0 <= k0 < sorted@.len() && (#[trigger] sorted@[k0]) as int == j;
            assert(out@[k0].0 as int == j);
        }
        assert forall|p: int, q: int| 0 <= p < q < out@.len() implies (#[trigger] out@[p].0) != (
        #[trigger] out@[q].0) by {
            assert(out@[p].0 == sorted@[p] && out@[q].0 == sorted@[q]);
        }
    }
    out
}

/// Annotates one solver run: its display name (trimmed, non-empty), its
/// description, or its hide flag. An empty update is refused; an unknown
/// `(solver, run)` pair changes nothing, as the row-limited update would.
pub fn solver_run_annotate(
    st: &mut Store,
    solver: u128,
    run: u128,
    name: Option<Vec<u8>>,
    description: Option<Vec<u8>>,
    hide: Option<bool>,
) -> (r: Result<(), CoreError>)
    requires
        old(st).wf(),
    ensures
        final(st).wf(),
        r is Ok <==> ((name is Some || description is Some || hide is Some) && (name matches Some(
            n,
        ) ==> crate::solution::trim_spaces(n@).len() > 0)),
        r is Ok ==> {
            &&& final(st).solver_runs@.len() == old(st).solver_runs@.len()
            &&& forall|j: int|
                0 <= j < old(st).solver_runs@.len() ==> {
                    let o = #[trigger] old(st).solver_runs@[j];
                    let f = final(st).solver_runs@[j];
                    &&& f.run_uuid == o.run_uuid
                    &&& f.sr_id == o.sr_id
                    &&& f.solver_uuid == o.solver_uuid
                    &&& ((o.run_uuid == run && o.solver_uuid == Some(solver)) ==> {
                        &&& (name matches Some(n) ==> crate::store::opt_bytes_view(f.name) == Some(
                            crate::solution::trim_spaces(n@),
                        ))
                        &&& (description matches Some(d) ==> crate::store::opt_bytes_view(
                            f.description,
                        ) == Some(crate::solution::trim_spaces(d@)))
                        &&& (hide matches Some(h) ==> f.hide == h)
                        &&& (hide is None ==> f.hide == o.hide)
                    })
                    &&& (!(o.run_uuid == run && o.solver_uuid == Some(solver)) ==> f == o)
                }
            &&& final(st).instances == old(st).instances
            &&& final(st).solutions == old(st).solutions
            &&& final(st).solution_data == old(st).solution_data
            &&& final(st).instance_data == old(st).instance_data
        },
        r matches Err(e) ==> crate::store::same_state(*final(st), *old(st)) && e.kind
            == ErrorKind::BadInput,
{
    let trimmed_name = match &name {
        Some(n) => {
            let t = crate::solution::trim_spaces_exec(n);
            if t.len() == 0 {
                return Err(CoreError::bad_input("name must not be empty"));
            }
            Some(t)
        },
        None => None,
    };
    let trimmed_desc = match &description {
        Some(d) => Some(crate::solution::trim_spaces_exec(d)),
        None => None,
    };
    if name.is_none() && description.is_none() && hide.is_none() {
        return Err(CoreError::bad_input("no fields to update"));
    }
    let mut idx_found: Option<usize> = None;
    let mut i: usize = 0;
    loop
        invariant_except_break
            idx_found is None,
        invariant
            0 <= i <= st.solver_runs@.len(),
            forall|k: int|
                0 <= k < i ==> !((#[trigger] st.solver_runs@[k]).run_uuid == run
                    && st.solver_runs@[k].solver_uuid == Some(solver)),
        ensures
            idx_found matches Some(x) ==> x < st.solver_runs@.len()
                && st.solver_runs@[x as int].run_uuid == run
                && st.solver_runs@[x as int].solver_uuid == Some(solver),
            idx_found is None ==> forall|k: int|
                0 <= k < st.solver_runs@.len() ==> !((#[trigger] st.solver_runs@[k]).run_uuid
                    == run && st.solver_runs@[k].solver_uuid == Some(solver)),
        decreases st.solver_runs@.len() - i,
    {
        if i == st.solver_runs.len() {
            break ;
        }
        let matches_row = st.solver_runs[i].run_uuid == run && (match st.solver_runs[i].solver_uuid {
            Some(s) => s == solver,
            None => false,
        });
        if matches_row {
            idx_found = Some(i);
            break ;
        }
        i = i + 1;
    }
    match idx_found {
        Some(idx) => {
            let ghost old_runs = st.solver_runs@;
            let mut row = st.solver_runs.remove(idx);
            match trimmed_name {
                Some(n) => {
                    row.name = Some(n);
                },
                None => {},
            }
            match trimmed_desc {
                Some(d) => {
                    row.description = Some(d);
                },
                None => {},
            }
            match hide {
                Some(h) => {
                    row.hide = h;
                },
                None => {},
            }
            st.solver_runs.insert(idx, row);
            proof {
                assert(st.solver_runs@ =~= old_runs.update(idx as int, st.solver_runs@[idx as int]));
                assert forall|a: int, b: int| 0 <= a < b < st.solver_runs@.len() implies (
                #[trigger] st.solver_runs@[a]).run_uuid != (#[trigger] st.solver_runs@[b]).run_uuid
                    by {
                    assert(st.solver_runs@[a].run_uuid == old_runs[a].run_uuid);
                    assert(st.solver_runs@[b].run_uuid == old_runs[b].run_uuid);
                }
                assert forall|a: int| 0 <= a < st.solver_runs@.len() implies (
                #[trigger] st.solver_runs@[a]).sr_id < st.next_sr_id by {
                    assert(st.solver_runs@[a].sr_id == old_runs[a].sr_id);
                }
                assert forall|a: int| 0 <= a < st.solutions@.len() implies has_run(
                    st.solver_runs@,
                    (#[trigger] st.solutions@[a]).sr_uuid,
                ) by {
                    let k = choose|k: int|
                        0 <= k < old_runs.len() && (#[trigger] old_runs[k]).run_uuid
                            == st.solutions@[a].sr_uuid;
                    assert(st.solver_runs@[k].run_uuid == old_runs[k].run_uuid);
                }
                assert forall|j: int| 0 <= j < old_runs.len() implies !((#[trigger] old_runs[j]).run_uuid
                    == run && old_runs[j].solver_uuid == Some(solver)) || j == idx as int by {
                    if j != idx as int && old_runs[j].run_uuid == run {
                        assert(old_runs[j].run_uuid != old_runs[idx as int].run_uuid);
                    }
                }
            }
            Ok(())
        },
        None => {
            Ok(())
        },
    }
}

/// The solutions of one solver that carry a payload hash: the indexes of
/// every valid solution any of its runs produced, each exactly once, in
/// store order — the client-side upload-by-reference cache.
pub fn solution_hash_list(st: &Store, solver: u128) -> (r: Vec<usize>)
    requires
        st.wf(),
    ensures
        forall|k: int|
            0 <= k < r@.len() ==> #[trigger] r@[k] < st.solutions@.len()
                && st.solutions@[r@[k] as int].solution_hash is Some && run_belongs(
                *st,
                st.solutions@[r@[k] as int].sr_uuid,
                solver,
            ),
        forall|j: int|
            0 <= j < st.solutions@.len() && (#[trigger] st.solutions@[j]).solution_hash is Some
                && run_belongs(*st, st.solutions@[j].sr_uuid, solver) ==> (exists|k: int|
                0 <= k < r@.len() && (#[trigger] r@[k]) as int == j),
        forall|p: int, q: int| 0 <= p < q < r@.len() ==> #[trigger] r@[p] < #[trigger] r@[q],
{
    let mut out: Vec<usize> = Vec::new();
    let mut i: usize = 0;
    while i < st.solutions.len()
        invariant
            st.wf(),
            0 <= i <= st.solutions@.len(),
            forall|k: int|
                0 <= k < out@.len() ==> #[trigger] out@[k] < i
                    && st.solutions@[out@[k] as int].solution_hash is Some && run_belongs(
                    *st,
                    st.solutions@[out@[k] as int].sr_uuid,
                    solver,
                ),
            forall|j: int|
                0 <= j < i && (#[trigger] st.solutions@[j]).solution_hash is Some && run_belongs(
                    *st,
                    st.solutions@[j].sr_uuid,
                    solver,
                ) ==> (exists|k: int| 0 <= k < out@.len() && (#[trigger] out@[k]) as int == j),
            forall|p: int, q: int| 0 <= p < q < out@.len() ==> #[trigger] out@[p] < #[trigger] out@[q],
        decreases st.solutions@.len() - i,
    {
        let has_hash = st.solutions[i].solution_hash.is_some();
        if has_hash && run_belongs_exec(st, st.solutions[i].sr_uuid, solver) {
            let ghost old_out = out@;
            out.push(i);
            proof {
                assert forall|k: int| 0 <= k < out@.len() implies #[trigger] out@[k] < i + 1
                    && st.solutions@[out@[k] as int].solution_hash is Some && run_belongs(
                    *st,
                    st.solutions@[out@[k] as int].sr_uuid,
                    solver,
                ) by {
                    if k < old_out.len() {
                        assert(out@[k] == old_out[k]);
                    }
                }
                assert forall|j: int|
                    0 <= j < i + 1 && (#[trigger] st.solutions@[j]).solution_hash is Some
                        && run_belongs(*st, st.solutions@[j].sr_uuid, solver) implies (exists|
                k: int| 0 <= k < out@.len() && (#[trigger] out@[k]) as int == j) by {
                    if j < i {
                        let k0 = choose|k0: int|
                            0 <= k0 < old_out.len() && (#[trigger] old_out[k0]) as int == j;
                        assert(out@[k0] as int == j);
                    } else {
                        assert(out@[out@.len() - 1] as int == j);
                    }
                }
                assert forall|p: int, q: int| 0 <= p < q < out@.len() implies #[trigger] out@[p]
                    < #[trigger] out@[q] by {
                    if q < old_out.len() {
                        assert(out@[p] == old_out[p] && out@[q] == old_out[q]);
                    } else {
                        assert(out@[p] == old_out[p] && out@[q] == i);
                    }
                }
            }
        }
        i = i + 1;
    }
    out
}

/// The run exists and belongs to the solver.
pub open spec fn run_belongs(st: Store, run: u128, solver: u128) -> bool {
    has_run(st.solver_runs@, run) && run_solver_of(st, run) == Some(solver)
}

/// Whether the run exists and belongs to the solver.
pub fn run_belongs_exec(st: &Store, run: u128, solver: u128) -> (r: bool)
    requires
        st.wf(),
    ensures
        r == run_belongs(*st, run, solver),
{
    let mut j: usize = 0;
    while j < st.solver_runs.len()
        invariant
            st.wf(),
            0 <= j <= st.solver_runs@.len(),
            forall|k: int|
                0 <= k < j ==> !((#[trigger] st.solver_runs@[k]).run_uuid == run
                    && st.solver_runs@[k].solver_uuid == Some(solver)),
        decreases st.solver_runs@.len() - j,
    {
        let matches_row = st.solver_runs[j].run_uuid == run && (match st.solver_runs[j].solver_uuid {
            Some(s) => s == solver,
            None => false,
        });
        if matches_row {
            proof {
                let r0 = run_ix(*st, run);
                assert(0 <= r0 < st.solver_runs@.len() && st.solver_runs@[r0].run_uuid == run) by {
                    assert(st.solver_runs@[j as int].run_uuid == run);
                }
                if r0 != j as int {
                    assert(st.solver_runs@[r0].run_uuid != st.solver_runs@[j as int].run_uuid);
                }
            }
            return true;
        }
        j = j + 1;
    }
    proof {
        if run_belongs(*st, run, solver) {
            let k0 = choose|k0: int|
                0 <= k0 < st.solver_runs@.len() && (#[trigger] st.solver_runs@[k0]).run_uuid
                    == run;
            let r0 = run_ix(*st, run);
            assert(0 <= r0 < st.solver_runs@.len() && st.solver_runs@[r0].run_uuid == run);
            assert(st.solver_runs@[r0].solver_uuid == Some(solver));
            assert(false);
        }
    }
    false
}

/// The per-run detail of one instance: the indexes of every solution row
/// on the instance whose run belongs to the solver, each exactly once, in
/// store order.
pub fn solutions_of_solver(st: &Store, iid: u32, solver: u128) -> (r: Vec<usize>)
    requires
        st.wf(),
    ensures
        forall|k: int|
            0 <= k < r@.len() ==> #[trigger] r@[k] < st.solutions@.len()
                && st.solutions@[r@[k] as int].instance_iid == iid && run_belongs(
                *st,
                st.solutions@[r@[k] as int].sr_uuid,
                solver,
            ),
        forall|j: int|
            0 <= j < st.solutions@.len() && (#[trigger] st.solutions@[j]).instance_iid == iid
                && run_belongs(*st, st.solutions@[j].sr_uuid, solver) ==> (exists|k: int|
                0 <= k < r@.len() && (#[trigger] r@[k]) as int == j),
        forall|p: int, q: int| 0 <= p < q < r@.len() ==> #[trigger] r@[p] < #[trigger] r@[q],
{
    let mut out: Vec<usize> = Vec::new();
    let mut i: usize = 0;
    while i < st.solutions.len()
        invariant
            st.wf(),
            0 <= i <= st.solutions@.len(),
            forall|k: int|
                0 <= k < out@.len() ==> #[trigger] out@[k] < i
                    && st.solutions@[out@[k] as int].instance_iid == iid && run_belongs(
                    *st,
                    st.solutions@[out@[k] as int].sr_uuid,
                    solver,
                ),
            forall|j: int|
                0 <= j < i && (#[trigger] st.solutions@[j]).instance_iid == iid && run_belongs(
                    *st,
                    st.solutions@[j].sr_uuid,
                    solver,
                ) ==> (exists|k: int| 0 <= k < out@.len() && (#[trigger] out@[k]) as int == j),
            forall|p: int, q: int| 0 <= p < q < out@.len() ==> #[trigger] out@[p] < #[trigger] out@[q],
        decreases st.solutions@.len() - i,
    {
        if st.solutions[i].instance_iid == iid && run_belongs_exec(st, st.solutions[i].sr_uuid, solver) {
            let ghost old_out = out@;
            out.push(i);
            proof {
                assert forall|k: int| 0 <= k < out@.len() implies #[trigger] out@[k] < i + 1
                    && st.solutions@[out@[k] as int].instance_iid == iid && run_belongs(
                    *st,
                    st.solutions@[out@[k] as int].sr_uuid,
                    solver,
                ) by {
                    if k < old_out.len() {
                        assert(out@[k] == old_out[k]);
                    }
                }
                assert forall|j: int|
                    0 <= j < i + 1 && (#[trigger] st.solutions@[j]).instance_iid == iid
                        && run_belongs(*st, st.solutions@[j].sr_uuid, solver) implies (exists|
                k: int| 0 <= k < out@.len() && (#[trigger] out@[k]) as int == j) by {
                    if j < i {
                        let k0 = choose|k0: int|
                            0 <= k0 < old_out.len() && (#[trigger] old_out[k0]) as int == j;
                        assert(out@[k0] as int == j);
                    } else {
                        assert(out@[out@.len() - 1] as int == j);
                    }
                }
                assert forall|p: int, q: int| 0 <= p < q < out@.len() implies #[trigger] out@[p]
                    < #[trigger] out@[q] by {
                    if q < old_out.len() {
                        assert(out@[p] == old_out[p] && out@[q] == old_out[q]);
                    } else {
                        assert(out@[p] == old_out[p] && out@[q] == i);
                    }
                }
            }
        }
        i = i + 1;
    }
    out
}

/// Index of the run row carrying a uuid, where one exists.
pub open spec fn run_ix(st: Store, run_uuid: u128) -> int {
    choose|i: int|
        0 <= i < st.solver_runs@.len() && (#[trigger] st.solver_runs@[i]).run_uuid == run_uuid
}

/// The solver a run belongs to, where the run exists.
pub open spec fn run_solver_of(st: Store, run_uuid: u128) -> Option<u128> {
    st.solver_runs@[run_ix(st, run_uuid)].solver_uuid
}

/// Count of an instance's solutions with a given score value.
pub open spec fn score_count(sols: Seq<SolutionRow>, iid: u32, sc: Option<u32>, upto: int) -> int
    decreases upto,
{
    if upto <= 0 {
        0
    } else {
        score_count(sols, iid, sc, upto - 1) + if sols[upto - 1].instance_iid == iid && sols[upto
            - 1].score == sc {
            1int
        } else {
            0int
        }
    }
}

/// The per-instance score histogram: each distinct score of the
/// instance's solutions with its row count, absent scores grouped as one.
pub fn instance_score_histogram(st: &Store, iid: u32) -> (r: Vec<(Option<u32>, u64)>)
    requires
        st.wf(),
    ensures
        forall|a: int, b: int|
            0 <= a < b < r@.len() ==> (#[trigger] r@[a]).0 != (#[trigger] r@[b]).0,
        forall|k: int|
            0 <= k < r@.len() ==> (#[trigger] r@[k]).1 == score_count(
                st.solutions@,
                iid,
                r@[k].0,
                st.solutions@.len() as int,
            ),
        forall|i: int|
            0 <= i < st.solutions@.len() && (#[trigger] st.solutions@[i]).instance_iid == iid
                ==> (exists|k: int| 0 <= k < r@.len() && (#[trigger] r@[k]).0 == st.solutions@[i].score),
{
    let mut out: Vec<(Option<u32>, u64)> = Vec::new();
    let mut i: usize = 0;
    while i < st.solutions.len()
        invariant
            st.wf(),
            0 <= i <= st.solutions@.len(),
            forall|a: int, b: int|
                0 <= a < b < out@.len() ==> (#[trigger] out@[a]).0 != (#[trigger] out@[b]).0,
            forall|k: int|
                0 <= k < out@.len() ==> (#[trigger] out@[k]).1 == score_count(
                    st.solutions@,
                    iid,
                    out@[k].0,
                    i as int,
                ),
            forall|j: int|
                0 <= j < i && (#[trigger] st.solutions@[j]).instance_iid == iid ==> (exists|k: int|
                    0 <= k < out@.len() && (#[trigger] out@[k]).0 == st.solutions@[j].score),
        decreases st.solutions@.len() - i,
    {
        let ghost pre_len = i as int;
        let row_iid = st.solutions[i].instance_iid;
        let sc = st.solutions[i].score;
        if row_iid == iid {
            // find the bucket of this score
            let mut found: Option<usize> = None;
            let mut k: usize = 0;
            loop
                invariant_except_break
                    found is None,
                invariant
                    0 <= k <= out@.len(),
                    forall|k2: int| 0 <= k2 < k ==> (#[trigger] out@[k2]).0 != sc,
                ensures
                    found matches Some(x) ==> x < out@.len() && out@[x as int].0 == sc,
                    found is None ==> forall|k2: int|
                        0 <= k2 < out@.len() ==> (#[trigger] out@[k2]).0 != sc,
                decreases out@.len() - k,
            {
                if k == out.len() {
                    break ;
                }
                let same = match (&out[k].0, &sc) {
                    (Some(a), Some(b)) => *a == *b,
                    (None, None) => true,
                    _ => false,
                };
                if same {
                    found = Some(k);
                    break ;
                }
                k = k + 1;
            }
            let ghost old_out = out@;
            match found {
                Some(x) => {
                    let cnt = out[x].1;
                    proof {
                        lemma_score_count_le(st.solutions@, iid, out@[x as int].0, i as int);
                    }
                    out[x] = (sc, cnt + 1);
                    proof {
                        assert(out@ =~= old_out.update(x as int, (sc, out@[x as int].1)));
                        assert forall|k2: int| 0 <= k2 < out@.len() implies (#[trigger] out@[k2]).1
                            == score_count(st.solutions@, iid, out@[k2].0, i as int + 1) by {
                            assert(st.solutions@[i as int].instance_iid == iid
                                && st.solutions@[i as int].score == sc);
                            if k2 != x as int {
                                assert(out@[k2] == old_out[k2]);
                                assert(out@[k2].0 != sc);
                            }
                        }
                        assert forall|j: int|
                            0 <= j < i + 1 && (#[trigger] st.solutions@[j]).instance_iid == iid
                                implies (exists|k2: int|
                            0 <= k2 < out@.len() && (#[trigger] out@[k2]).0
                                == st.solutions@[j].score) by {
                            if j < i {
                                let k3 = choose|k3: int|
                                    0 <= k3 < old_out.len() && (#[trigger] old_out[k3]).0
                                        == st.solutions@[j].score;
                                assert(out@[k3].0 == st.solutions@[j].score);
                            } else {
                                assert(out@[x as int].0 == sc);
                            }
                        }
                    }
                },
                None => {
                    proof {
                        assert(score_count(st.solutions@, iid, sc, i as int) == 0) by {
                            lemma_score_count_absent(st.solutions@, iid, sc, i as int, old_out);
                        }
                    }
                    out.push((sc, 1));
                    proof {
                        assert forall|k2: int| 0 <= k2 < out@.len() implies (#[trigger] out@[k2]).1
                            == score_count(st.solutions@, iid, out@[k2].0, i as int + 1) by {
                            assert(st.solutions@[i as int].instance_iid == iid
                                && st.solutions@[i as int].score == sc);
                            if k2 < old_out.len() {
                                assert(out@[k2] == old_out[k2]);
                            }
                        }
                        assert forall|a: int, b: int| 0 <= a < b < out@.len() implies (
                        #[trigger] out@[a]).0 != (#[trigger] out@[b]).0 by {
                            if b < old_out.len() {
                                assert(out@[a] == old_out[a] && out@[b] == old_out[b]);
                            } else {
                                assert(out@[a] == old_out[a]);
                                assert(out@[b].0 == sc);
                            }
                        }
                        assert forall|j: int|
                            0 <= j < i + 1 && (#[trigger] st.solutions@[j]).instance_iid == iid
                                implies (exists|k2: int|
                            0 <= k2 < out@.len() && (#[trigger] out@[k2]).0
                                == st.solutions@[j].score) by {
                            if j < i {
                                let k3 = choose|k3: int|
                                    0 <= k3 < old_out.len() && (#[trigger] old_out[k3]).0
                                        == st.solutions@[j].score;
                                assert(out@[k3].0 == st.solutions@[j].score);
                            } else {
                                assert(out@[out@.len() - 1].0 == sc);
                            }
                        }
                    }
                },
            }
        } else {
            proof {
                assert forall|k2: int| 0 <= k2 < out@.len() implies (#[trigger] out@[k2]).1
                    == score_count(st.solutions@, iid, out@[k2].0, i as int + 1) by {
                    assert(st.solutions@[i as int].instance_iid != iid);
                }
            }
        }
        i = i + 1;
    }
    out
}

/// A score occurs at most once per row.
proof fn lemma_score_count_le(sols: Seq<SolutionRow>, iid: u32, sc: Option<u32>, upto: int)
    requires
        upto >= 0,
    ensures
        0 <= score_count(sols, iid, sc, upto) <= upto,
    decreases upto,
{
    if upto > 0 {
        lemma_score_count_le(sols, iid, sc, upto - 1);
    }
}

/// A score no bucket holds yet has not occurred among the first rows.
proof fn lemma_score_count_absent(
    sols: Seq<SolutionRow>,
    iid: u32,
    sc: Option<u32>,
    upto: int,
    buckets: Seq<(Option<u32>, u64)>,
)
    requires
        0 <= upto <= sols.len(),
        forall|j: int|
            0 <= j < upto && (#[trigger] sols[j]).instance_iid == iid ==> (exists|k: int|
                0 <= k < buckets.len() && (#[trigger] buckets[k]).0 == sols[j].score),
        forall|k: int| 0 <= k < buckets.len() ==> (#[trigger] buckets[k]).0 != sc,
    ensures
        score_count(sols, iid, sc, upto) == 0,
    decreases upto,
{
    if upto > 0 {
        lemma_score_count_absent(sols, iid, sc, upto - 1, buckets);
        if sols[upto - 1].instance_iid == iid && sols[upto - 1].score == sc {
            let k = choose|k: int|
                0 <= k < buckets.len() && (#[trigger] buckets[k]).0 == sols[upto - 1].score;
        }
    }
}

/// An instance the fetch-unsolved endpoint offers: it has no solution
/// rows at all, or some run ended without a payload on it.
pub open spec fn lacks_solution(st: Store, i: int) -> bool {
    let iid = st.instances@[i].iid;
    (forall|j: int| 0 <= j < st.solutions@.len() ==> (#[trigger] st.solutions@[j]).instance_iid
        != iid) || (exists|j: int|
        0 <= j < st.solutions@.len() && (#[trigger] st.solutions@[j]).instance_iid == iid
            && st.solutions@[j].solution_hash is None)
}

fn lacks_solution_exec(st: &Store, i: usize) -> (r: bool)
    requires
        i < st.instances@.len(),
    ensures
        r == lacks_solution(*st, i as int),
{
    let iid = st.instances[i].iid;
    let mut any = false;
    let mut hashless = false;
    let mut j: usize = 0;
    while j < st.solutions.len()
        invariant
            0 <= j <= st.solutions@.len(),
            i < st.instances@.len(),
            iid == st.instances@[i as int].iid,
            any == !(forall|k: int|
                0 <= k < j ==> (#[trigger] st.solutions@[k]).instance_iid != iid),
            hashless == (exists|k: int|
                0 <= k < j && (#[trigger] st.solutions@[k]).instance_iid == iid
                    && st.solutions@[k].solution_hash is None),
        decreases st.solutions@.len() - j,
    {
        if st.solutions[j].instance_iid == iid {
            any = true;
            if st.solutions[j].solution_hash.is_none() {
                hashless = true;
            }
        }
        j = j + 1;
    }
    !any || hashless
}

/// The smallest instance still waiting for a solution: the one the
/// fetch-unsolved endpoint hands to an idle solver.
pub fn find_unsolved(st: &Store) -> (r: Option<usize>)
    requires
        st.wf(),
    ensures
        r matches Some(i) ==> i < st.instances@.len() && lacks_solution(*st, i as int) && (
        forall|k: int|
            0 <= k < st.instances@.len() && lacks_solution(*st, k) ==> st.instances@[i as int].nodes
                <= (#[trigger] st.instances@[k]).nodes),
        r is None ==> forall|k: int|
            0 <= k < st.instances@.len() ==> !lacks_solution(*st, k),
{
    let mut best: Option<usize> = None;
    let mut i: usize = 0;
    while i < st.instances.len()
        invariant
            st.wf(),
            0 <= i <= st.instances@.len(),
            best matches Some(b) ==> b < st.instances@.len() && lacks_solution(*st, b as int) && (
            forall|k: int|
                0 <= k < i && lacks_solution(*st, k) ==> st.instances@[b as int].nodes <= (
                #[trigger] st.instances@[k]).nodes),
            best is None ==> forall|k: int| 0 <= k < i ==> !lacks_solution(*st, k),
        decreases st.instances@.len() - i,
    {
        if lacks_solution_exec(st, i) {
            let better = match best {
                Some(b) => st.instances[i].nodes < st.instances[b].nodes,
                None => true,
            };
            if better {
                best = Some(i);
            }
        }
        i = i + 1;
    }
    best
}

/// The shapes a solution download comes in: the text format, or a JSON
/// node list.
#[derive(Debug, Clone, Copy, PartialEq, Eq, Structural)]
pub enum ResponseFormat {
    Dimacs,
    Json,
}

impl Default for ResponseFormat {
    fn default() -> (r: Self)
        ensures
            r == ResponseFormat::Dimacs,
    {
        ResponseFormat::Dimacs
    }
}

/// One tag of the listing, with the number of instances carrying it.
pub struct TagModel {
    pub tid: u32,
    pub name: Vec<u8>,
    pub description: Option<Vec<u8>>,
    pub style: u32,
    pub num_instances: u64,
}

/// How many instances carry the tag, over the first `upto` links.
pub open spec fn tag_link_count(links: Seq<crate::store::InstanceTagRow>, tid: u32, upto: int) -> int
    decreases upto,
{
    if upto <= 0 {
        0
    } else {
        tag_link_count(links, tid, upto - 1) + if links[upto - 1].tag_tid == tid {
            1int
        } else {
            0int
        }
    }
}

proof fn lemma_tag_link_count_le(links: Seq<crate::store::InstanceTagRow>, tid: u32, upto: int)
    requires
        upto >= 0,
    ensures
        0 <= tag_link_count(links, tid, upto) <= upto,
    decreases upto,
{
    if upto > 0 {
        lemma_tag_link_count_le(links, tid, upto - 1);
    }
}

/// Every tag with its instance count: the tag listing.
pub fn get_tag_list(st: &Store) -> (r: Vec<TagModel>)
    requires
        st.wf(),
    ensures
        r@.len() == st.tags@.len(),
        forall|k: int|
            0 <= k < r@.len() ==> {
                let t = #[trigger] r@[k];
                &&& t.tid == st.tags@[k].tid
                &&& t.name@ == st.tags@[k].name@
                &&& t.style == st.tags@[k].style
                &&& t.num_instances == tag_link_count(
                    st.instance_tags@,
                    st.tags@[k].tid,
                    st.instance_tags@.len() as int,
                )
            },
{
    let mut out: Vec<TagModel> = Vec::new();
    let mut i: usize = 0;
    while i < st.tags.len()
        invariant
            st.wf(),
            0 <= i <= st.tags@.len(),
            out@.len() == i,
            forall|k: int|
                0 <= k < out@.len() ==> {
                    let t = #[trigger] out@[k];
                    &&& t.tid == st.tags@[k].tid
                    &&& t.name@ == st.tags@[k].name@
                    &&& t.style == st.tags@[k].style
                    &&& t.num_instances == tag_link_count(
                        st.instance_tags@,
                        st.tags@[k].tid,
                        st.instance_tags@.len() as int,
                    )
                },
        decreases st.tags@.len() - i,
    {
        let tag = &st.tags[i];
        let mut cnt: u64 = 0;
        let mut j: usize = 0;
        proof {
            lemma_tag_link_count_le(st.instance_tags@, tag.tid, st.instance_tags@.len() as int);
        }
        while j < st.instance_tags.len()
            invariant
                0 <= j <= st.instance_tags@.len(),
                cnt == tag_link_count(st.instance_tags@, tag.tid, j as int),
                cnt <= j,
            decreases st.instance_tags@.len() - j,
        {
            if st.instance_tags[j].tag_tid == tag.tid {
                cnt = cnt + 1;
            }
            j = j + 1;
        }
        let ghost old_out = out@;
        out.push(
            TagModel {
                tid: tag.tid,
                name: crate::store::bytes_copy(&tag.name),
                description: crate::store::clone_opt_bytes(&tag.description),
                style: tag.style,
                num_instances: cnt,
            },
        );
        proof {
            assert forall|k: int| 0 <= k < out@.len() implies {
                let t = #[trigger] out@[k];
                &&& t.tid == st.tags@[k].tid
                &&& t.name@ == st.tags@[k].name@
                &&& t.style == st.tags@[k].style
                &&& t.num_instances == tag_link_count(
                    st.instance_tags@,
                    st.tags@[k].tid,
                    st.instance_tags@.len() as int,
                )
            } by {
                if k < old_out.len() {
                    assert(out@[k] == old_out[k]);
                }
            }
        }
        i = i + 1;
    }
    out
}

/// Frames a stored document for download: the metadata echoed as one JSON
/// comment line above the canonical bytes.
pub fn dimacs_file_from_instance_and_data(header_json: &Vec<u8>, data: &Vec<u8>) -> (r: Vec<u8>)
    ensures
        r@ == seq![99u8, 32u8] + header_json@ + seq![10u8] + data@,
{
    let mut out: Vec<u8> = Vec::new();
    out.push(99);
    out.push(32);
    out.extend_from_slice(header_json.as_slice());
    out.push(10);
    out.extend_from_slice(data.as_slice());
    proof {
        assert(out@ =~= seq![99u8, 32u8] + header_json@ + seq![10u8] + data@);
    }
    out
}

/// Fetches the canonical bytes of one instance for download.
pub fn fetch_instance(st: &Store, iid: u32) -> (r: Result<(usize, Vec<u8>), CoreError>)
    requires
        st.wf(),
    ensures
        r is Ok <==> crate::store::has_instance(st.instances@, iid),
        r matches Ok((idx, data)) ==> idx < st.instances@.len() && st.instances@[idx as int].iid
            == iid && (exists|j: int|
            0 <= j < st.instance_data@.len() && (#[trigger] st.instance_data@[j]).did
                == st.instances@[idx as int].data_did && data@ == st.instance_data@[j].data@),
        r matches Err(e) ==> e.kind == ErrorKind::NotFound,
{
    let idx = match st.find_instance(iid) {
        Some(i) => i,
        None => {
            return Err(CoreError::new(ErrorKind::NotFound, "no such instance"));
        },
    };
    let didx = match st.find_instance_data(st.instances[idx].data_did) {
        Some(j) => j,
        None => {
            proof {
                assert(crate::store::has_did(st.instance_data@, st.instances@[idx as int].data_did));
                assert(false);
            }
            return Err(CoreError::new(ErrorKind::NotFound, "missing instance data"));
        },
    };
    let data = crate::store::bytes_copy(&st.instance_data[didx].data);
    Ok((idx, data))
}

/// Fetches one run's solution payload for an instance: the score and the
/// stored bytes; only complete `(instance, solver, run)` coordinates reach
/// a payload.
pub fn fetch_solution(st: &Store, iid: u32, solver: u128, run: u128) -> (r: Result<
    (u32, Vec<u8>),
    CoreError,
>)
    requires
        st.wf(),
    ensures
        r matches Ok((score, data)) ==> (exists|i: int, j: int|
            {
                &&& 0 <= i < st.solutions@.len()
                &&& (#[trigger] st.solutions@[i]).instance_iid == iid
                &&& st.solutions@[i].sr_uuid == run
                &&& st.solutions@[i].score == Some(score)
                &&& 0 <= j < st.solution_data@.len()
                &&& sol_hash_view(st.solutions@[i]) == Some(
                    (#[trigger] st.solution_data@[j]).hash@,
                )
                &&& data@ == st.solution_data@[j].data@
                &&& run_solver_of(*st, run) == Some(solver)
            }),
        r matches Err(e) ==> e.kind == ErrorKind::NotFound,
        r is Ok <==> (crate::store::has_run_pair(st.solutions@, run, iid) && st.solutions@[
            crate::query::overlay_ix(st.solutions@, run, iid)].score is Some && run_belongs(
            *st,
            run,
            solver,
        )),
{
    let sidx = match crate::query::find_overlay(st, run, iid) {
        Some(i) => i,
        None => {
            return Err(CoreError::new(ErrorKind::NotFound, "no such solution"));
        },
    };
    let score = match st.solutions[sidx].score {
        Some(s) => s,
        None => {
            return Err(CoreError::new(ErrorKind::NotFound, "no valid solution here"));
        },
    };
    // the run must belong to the named solver
    if !run_belongs_exec(st, run, solver) {
        return Err(CoreError::new(ErrorKind::NotFound, "no such solver run"));
    }
    let hash = match &st.solutions[sidx].solution_hash {
        Some(h) => h,
        None => {
            proof {
                assert(st.solutions@[sidx as int].error_code == SolverResultType::Valid);
                assert(false);
            }
            return Err(CoreError::new(ErrorKind::NotFound, "missing payload"));
        },
    };
    let mut k: usize = 0;
    while k < st.solution_data.len()
        invariant
            st.wf(),
            sidx < st.solutions@.len(),
            hash@ == sol_hash_view(st.solutions@[sidx as int])->Some_0,
            st.solutions@[sidx as int].instance_iid == iid,
            st.solutions@[sidx as int].sr_uuid == run,
            st.solutions@[sidx as int].score == Some(score),
            run_belongs(*st, run, solver),
            0 <= k <= st.solution_data@.len(),
            forall|k2: int| 0 <= k2 < k ==> (#[trigger] st.solution_data@[k2]).hash@ != hash@,
        decreases st.solution_data@.len() - k,
    {
        if crate::store::bytes_eq(&st.solution_data[k].hash, hash) {
            let data = crate::store::bytes_copy(&st.solution_data[k].data);
            proof {
                assert(0 <= sidx < st.solutions@.len() && (#[trigger] st.solutions@[sidx as int]).instance_iid
                    == iid && st.solutions@[sidx as int].sr_uuid == run
                    && st.solutions@[sidx as int].score == Some(score) && 0 <= k
                    < st.solution_data@.len() && sol_hash_view(st.solutions@[sidx as int]) == Some(
                    (#[trigger] st.solution_data@[k as int]).hash@,
                ) && data@ == st.solution_data@[k as int].data@ && run_solver_of(*st, run) == Some(
                    solver,
                ));
                assert(sidx as int == crate::query::overlay_ix(st.solutions@, run, iid));
            }
            return Ok((score, data));
        }
        k = k + 1;
    }
    proof {
        assert(crate::store::has_sol_data(st.solution_data@, hash@));
        let k3 = choose|k3: int|
            0 <= k3 < st.solution_data@.len() && (#[trigger] st.solution_data@[k3]).hash@ == hash@;
        assert(false);
    }
    Err(CoreError::new(ErrorKind::NotFound, "missing payload"))
}

} // verus!
