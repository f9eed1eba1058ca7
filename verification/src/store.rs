//! The content-addressed store: instance and solution rows, their payload
//! tables keyed by hash, and the transactional writers that keep every
//! multi-row invariant. Each writer either applies its whole effect or
//! leaves the store unchanged.
use vstd::prelude::*;

use crate::err::{CoreError, ErrorKind};

verus! {

/// One benchmark instance.
pub struct InstanceRow {
    pub iid: u32,
    pub data_did: u32,
    pub nodes: u32,
    pub edges: u64,
    pub name: Option<Vec<u8>>,
    pub description: Option<Vec<u8>>,
    pub submitted_by: Option<Vec<u8>>,
    pub best_score: Option<u32>,
    pub min_deg: Option<u32>,
    pub max_deg: Option<u32>,
    pub num_ccs: Option<u32>,
    pub nodes_largest_cc: Option<u32>,
    pub diameter: Option<u32>,
    pub treewidth: Option<u32>,
    pub planar: Option<bool>,
    pub bipartite: Option<bool>,
    pub created_at: u64,
}

/// A canonical instance payload, content-addressed by its SHA-256.
pub struct InstanceDataRow {
    pub did: u32,
    pub hash: Vec<u8>,
    pub data: Vec<u8>,
}

/// A solution payload, content-addressed by its SHA-1.
pub struct SolutionDataRow {
    pub hash: Vec<u8>,
    pub data: Vec<u8>,
}

/// The typed outcome kinds of a solver run on one instance.
#[derive(Debug, Clone, Copy, PartialEq, Eq, Structural)]
pub enum SolverResultType {
    Valid,
    Infeasible,
    SyntaxError,
    Timeout,
    NonCompetitive,
    IncompleteOutput,
}

impl SolverResultType {
    /// The numeric code stored for this outcome.
    pub open spec fn code_spec(self) -> u32 {
        match self {
            SolverResultType::Valid => 1,
            SolverResultType::Infeasible => 2,
            SolverResultType::SyntaxError => 3,
            SolverResultType::Timeout => 4,
            SolverResultType::NonCompetitive => 5,
            SolverResultType::IncompleteOutput => 6,
        }
    }

    pub fn code(&self) -> (r: u32)
        ensures
            r == self.code_spec(),
    {
        match self {
            SolverResultType::Valid => 1,
            SolverResultType::Infeasible => 2,
            SolverResultType::SyntaxError => 3,
            SolverResultType::Timeout => 4,
            SolverResultType::NonCompetitive => 5,
            SolverResultType::IncompleteOutput => 6,
        }
    }

    /// The outcome with a given code; every code outside `[1, 6]` is refused.
    pub fn try_from(value: u32) -> (r: Result<Self, CoreError>)
        ensures
            r matches Ok(t) ==> t.code_spec() == value,
            r is Ok <==> 1 <= value <= 6,
            r matches Err(e) ==> e.kind == ErrorKind::BadInput,
    {
        if value == 1 {
            Ok(SolverResultType::Valid)
        } else if value == 2 {
            Ok(SolverResultType::Infeasible)
        } else if value == 3 {
            Ok(SolverResultType::SyntaxError)
        } else if value == 4 {
            Ok(SolverResultType::Timeout)
        } else if value == 5 {
            Ok(SolverResultType::NonCompetitive)
        } else if value == 6 {
            Ok(SolverResultType::IncompleteOutput)
        } else {
            Err(CoreError::bad_input("invalid solver result type value"))
        }
    }
}

/// One solver result for one instance; created in its terminal state and
/// never mutated.
pub struct SolutionRow {
    pub sid: u32,
    pub sr_uuid: u128,
    pub instance_iid: u32,
    pub error_code: SolverResultType,
    pub score: Option<u32>,
    pub seconds_computed: Option<u64>,
    pub solution_hash: Option<Vec<u8>>,
    pub created_at: u64,
}

/// One solver run, created on its first solution upload.
pub struct SolverRunRow {
    pub sr_id: u32,
    pub run_uuid: u128,
    pub solver_uuid: Option<u128>,
    pub name: Option<Vec<u8>>,
    pub description: Option<Vec<u8>>,
    pub user_key: Option<Vec<u8>>,
    pub hide: bool,
    pub num_scheduled: Option<u32>,
    pub created_at: u64,
}

/// A tag and the many-to-many link table tying it to instances.
pub struct TagRow {
    pub tid: u32,
    pub name: Vec<u8>,
    pub description: Option<Vec<u8>>,
    pub style: u32,
}

pub struct InstanceTagRow {
    pub instance_iid: u32,
    pub tag_tid: u32,
}

/// The hash of a solution row, as a mathematical value.
pub open spec fn sol_hash_view(r: SolutionRow) -> Option<Seq<u8>> {
    match r.solution_hash {
        Option::Some(v) => Option::Some(v@),
        Option::None => Option::None,
    }
}

pub open spec fn unique_iids(s: Seq<InstanceRow>) -> bool {
    forall|i: int, j: int|
        0 <= i < j < s.len() ==> (#[trigger] s[i]).iid != (#[trigger] s[j]).iid
}

pub open spec fn unique_dids(s: Seq<InstanceDataRow>) -> bool {
    forall|i: int, j: int|
        0 <= i < j < s.len() ==> (#[trigger] s[i]).did != (#[trigger] s[j]).did
}

pub open spec fn unique_data_hashes(s: Seq<InstanceDataRow>) -> bool {
    forall|i: int, j: int|
        0 <= i < j < s.len() ==> (#[trigger] s[i]).hash@ != (#[trigger] s[j]).hash@
}

pub open spec fn unique_sol_hashes(s: Seq<SolutionDataRow>) -> bool {
    forall|i: int, j: int|
        0 <= i < j < s.len() ==> (#[trigger] s[i]).hash@ != (#[trigger] s[j]).hash@
}

pub open spec fn unique_sids(s: Seq<SolutionRow>) -> bool {
    forall|i: int, j: int|
        0 <= i < j < s.len() ==> (#[trigger] s[i]).sid != (#[trigger] s[j]).sid
}

/// One result per `(run, instance)` pair.
pub open spec fn unique_run_pairs(s: Seq<SolutionRow>) -> bool {
    forall|i: int, j: int|
        0 <= i < j < s.len() ==> !((#[trigger] s[i]).sr_uuid == (#[trigger] s[j]).sr_uuid
            && s[i].instance_iid == s[j].instance_iid)
}

pub open spec fn unique_run_uuids(s: Seq<SolverRunRow>) -> bool {
    forall|i: int, j: int|
        0 <= i < j < s.len() ==> (#[trigger] s[i]).run_uuid != (#[trigger] s[j]).run_uuid
}

pub open spec fn unique_tids(s: Seq<TagRow>) -> bool {
    forall|i: int, j: int|
        0 <= i < j < s.len() ==> (#[trigger] s[i]).tid != (#[trigger] s[j]).tid
}

pub open spec fn unique_tag_names(s: Seq<TagRow>) -> bool {
    forall|i: int, j: int|
        0 <= i < j < s.len() ==> (#[trigger] s[i]).name@ != (#[trigger] s[j]).name@
}

pub open spec fn has_instance(s: Seq<InstanceRow>, iid: u32) -> bool {
    exists|i: int| 0 <= i < s.len() && (#[trigger] s[i]).iid == iid
}

pub open spec fn has_did(s: Seq<InstanceDataRow>, did: u32) -> bool {
    exists|i: int| 0 <= i < s.len() && (#[trigger] s[i]).did == did
}

pub open spec fn has_data_hash(s: Seq<InstanceDataRow>, h: Seq<u8>) -> bool {
    exists|i: int| 0 <= i < s.len() && (#[trigger] s[i]).hash@ == h
}

pub open spec fn has_sol_data(s: Seq<SolutionDataRow>, h: Seq<u8>) -> bool {
    exists|i: int| 0 <= i < s.len() && (#[trigger] s[i]).hash@ == h
}

pub open spec fn has_run(s: Seq<SolverRunRow>, run_uuid: u128) -> bool {
    exists|i: int| 0 <= i < s.len() && (#[trigger] s[i]).run_uuid == run_uuid
}

pub open spec fn has_tag_name(s: Seq<TagRow>, name: Seq<u8>) -> bool {
    exists|i: int| 0 <= i < s.len() && (#[trigger] s[i]).name@ == name
}

/// Some instance references the payload row: the row is live.
pub open spec fn data_referenced(insts: Seq<InstanceRow>, did: u32) -> bool {
    exists|i: int| 0 <= i < insts.len() && (#[trigger] insts[i]).data_did == did
}

/// Some solution references the payload row: the row is live.
pub open spec fn sol_hash_referenced(sols: Seq<SolutionRow>, h: Seq<u8>) -> bool {
    exists|i: int| 0 <= i < sols.len() && sol_hash_view(#[trigger] sols[i]) == Some(h)
}

/// A `(run, instance)` pair already has a result.
pub open spec fn has_run_pair(sols: Seq<SolutionRow>, run_uuid: u128, iid: u32) -> bool {
    exists|i: int|
        0 <= i < sols.len() && (#[trigger] sols[i]).sr_uuid == run_uuid && sols[i].instance_iid
            == iid
}

/// The smaller of two optional scores, treating `None` as no information.
pub open spec fn opt_min(a: Option<u32>, b: Option<u32>) -> Option<u32> {
    match (a, b) {
        (Option::None, x) => x,
        (x, Option::None) => x,
        (Option::Some(x), Option::Some(y)) => if x <= y {
            Option::Some(x)
        } else {
            Option::Some(y)
        },
    }
}

/// The best (smallest) score among the valid solutions of an instance.
pub open spec fn min_valid_score(sols: Seq<SolutionRow>, iid: u32) -> Option<u32>
    decreases sols.len(),
{
    if sols.len() == 0 {
        Option::None
    } else {
        let rest = min_valid_score(sols.drop_last(), iid);
        if sols.last().instance_iid == iid && sols.last().error_code == SolverResultType::Valid {
            opt_min(rest, sols.last().score)
        } else {
            rest
        }
    }
}

/// The repository state: every table of the store.
pub struct Store {
    pub instances: Vec<InstanceRow>,
    pub instance_data: Vec<InstanceDataRow>,
    pub solutions: Vec<SolutionRow>,
    pub solution_data: Vec<SolutionDataRow>,
    pub solver_runs: Vec<SolverRunRow>,
    pub tags: Vec<TagRow>,
    pub instance_tags: Vec<InstanceTagRow>,
    pub next_iid: u32,
    pub next_did: u32,
    pub next_sid: u32,
    pub next_tid: u32,
    pub next_sr_id: u32,
}

impl Store {
    /// Every store invariant: unique keys, referential integrity, liveness
    /// of the content-addressed payloads, the terminal-state rule for
    /// solution rows, and the best-score minimum.
    pub open spec fn wf(&self) -> bool {
        &&& unique_iids(self.instances@)
        &&& unique_dids(self.instance_data@)
        &&& unique_data_hashes(self.instance_data@)
        &&& unique_sids(self.solutions@)
        &&& unique_run_pairs(self.solutions@)
        &&& unique_sol_hashes(self.solution_data@)
        &&& unique_run_uuids(self.solver_runs@)
        &&& unique_tids(self.tags@)
        &&& unique_tag_names(self.tags@)
        &&& forall|i: int|
            0 <= i < self.instances@.len() ==> has_did(
                self.instance_data@,
                (#[trigger] self.instances@[i]).data_did,
            )
        &&& forall|i: int|
            0 <= i < self.instance_data@.len() ==> data_referenced(
                self.instances@,
                (#[trigger] self.instance_data@[i]).did,
            )
        &&& forall|i: int|
            0 <= i < self.solutions@.len() ==> has_instance(
                self.instances@,
                (#[trigger] self.solutions@[i]).instance_iid,
            )
        &&& forall|i: int|
            ((#[trigger] self.solutions@[i]).error_code == SolverResultType::Valid <==> self.solutions@[i].solution_hash is Some)
                || !(0 <= i < self.solutions@.len())
        &&& forall|i: int|
            ((#[trigger] self.solutions@[i]).error_code == SolverResultType::Valid <==> self.solutions@[i].score is Some)
                || !(0 <= i < self.solutions@.len())
        &&& forall|i: int|
            0 <= i < self.solutions@.len() && (#[trigger] self.solutions@[i]).solution_hash is Some
                ==> has_sol_data(self.solution_data@, sol_hash_view(self.solutions@[i])->Some_0)
        &&& forall|i: int|
            0 <= i < self.solutions@.len() ==> has_run(
                self.solver_runs@,
                (#[trigger] self.solutions@[i]).sr_uuid,
            )
        &&& forall|i: int|
            0 <= i < self.solution_data@.len() ==> sol_hash_referenced(
                self.solutions@,
                (#[trigger] self.solution_data@[i]).hash@,
            )
        &&& forall|i: int|
            0 <= i < self.instances@.len() ==> (#[trigger] self.instances@[i]).iid < self.next_iid
        &&& forall|i: int|
            0 <= i < self.instance_data@.len() ==> (#[trigger] self.instance_data@[i]).did
                < self.next_did
        &&& forall|i: int|
            0 <= i < self.solutions@.len() ==> (#[trigger] self.solutions@[i]).sid < self.next_sid
        &&& forall|i: int|
            0 <= i < self.tags@.len() ==> (#[trigger] self.tags@[i]).tid < self.next_tid
        &&& forall|i: int|
            0 <= i < self.solver_runs@.len() ==> (#[trigger] self.solver_runs@[i]).sr_id
                < self.next_sr_id
        &&& forall|i: int|
            0 <= i < self.instances@.len() ==> (#[trigger] self.instances@[i]).best_score
                == min_valid_score(self.solutions@, self.instances@[i].iid)
    }

    /// A fresh, empty repository.
    pub fn new() -> (r: Store)
        ensures
            r.wf(),
            r.instances@.len() == 0,
            r.instance_data@.len() == 0,
            r.solutions@.len() == 0,
            r.solution_data@.len() == 0,
            r.solver_runs@.len() == 0,
            r.tags@.len() == 0,
            r.instance_tags@.len() == 0,
    {
        Store {
            instances: Vec::new(),
            instance_data: Vec::new(),
            solutions: Vec::new(),
            solution_data: Vec::new(),
            solver_runs: Vec::new(),
            tags: Vec::new(),
            instance_tags: Vec::new(),
            next_iid: 1,
            next_did: 1,
            next_sid: 1,
            next_tid: 1,
            next_sr_id: 1,
        }
    }

    /// Index of the instance with a given id.
    pub fn find_instance(&self, iid: u32) -> (r: Option<usize>)
        ensures
            r matches Some(i) ==> i < self.instances@.len() && self.instances@[i as int].iid == iid,
            r is Some <==> has_instance(self.instances@, iid),
    {
        let mut i: usize = 0;
        while i < self.instances.len()
            invariant
                0 <= i <= self.instances@.len(),
                forall|k: int| 0 <= k < i ==> (#[trigger] self.instances@[k]).iid != iid,
            decreases self.instances@.len() - i,
        {
            if self.instances[i].iid == iid {
                return Some(i);
            }
            i = i + 1;
        }
        proof {
            if has_instance(self.instances@, iid) {
                let k = choose|k: int|
                    0 <= k < self.instances@.len() && (#[trigger] self.instances@[k]).iid == iid;
            }
        }
        None
    }

    /// Index of the payload row with a given id.
    pub fn find_instance_data(&self, did: u32) -> (r: Option<usize>)
        ensures
            r matches Some(i) ==> i < self.instance_data@.len() && self.instance_data@[i as int].did
                == did,
            r is Some <==> has_did(self.instance_data@, did),
    {
        let mut i: usize = 0;
        while i < self.instance_data.len()
            invariant
                0 <= i <= self.instance_data@.len(),
                forall|k: int| 0 <= k < i ==> (#[trigger] self.instance_data@[k]).did != did,
            decreases self.instance_data@.len() - i,
        {
            if self.instance_data[i].did == did {
                return Some(i);
            }
            i = i + 1;
        }
        proof {
            if has_did(self.instance_data@, did) {
                let k = choose|k: int|
                    0 <= k < self.instance_data@.len() && (#[trigger] self.instance_data@[k]).did
                        == did;
            }
        }
        None
    }

    /// How many rows each table holds: the status summary.
    pub fn status_counts(&self) -> (r: (usize, usize, usize))
        ensures
            r.0 == self.instances@.len(),
            r.1 == self.solutions@.len(),
            r.2 == self.solution_data@.len(),
    {
        (self.instances.len(), self.solutions.len(), self.solution_data.len())
    }
}

/// A request to create a tag.
pub struct TagCreateRequest {
    pub name: Vec<u8>,
    pub description: Option<Vec<u8>>,
    pub style: u32,
}

/// A partial metadata update for one instance. Only the recognized fields
/// can change; absent options leave the column alone.
pub struct UpdateRequest {
    pub iid: u32,
    pub name: Option<Vec<u8>>,
    pub description: Option<Vec<u8>>,
    pub min_deg: Option<u32>,
    pub max_deg: Option<u32>,
    pub num_ccs: Option<u32>,
    pub nodes_largest_cc: Option<u32>,
    pub diameter: Option<u32>,
    pub tree_width: Option<u32>,
    pub planar: Option<bool>,
}

/// The view of an optional byte field.
pub open spec fn opt_bytes_view(v: Option<Vec<u8>>) -> Option<Seq<u8>> {
    match v {
        Option::Some(b) => Option::Some(b@),
        Option::None => Option::None,
    }
}

impl UpdateRequest {
    /// At least one recognized field is present.
    pub open spec fn any_field_set(&self) -> bool {
        self.name is Some || self.description is Some || self.min_deg is Some
            || self.max_deg is Some || self.num_ccs is Some || self.nodes_largest_cc is Some
            || self.diameter is Some || self.tree_width is Some || self.planar is Some
    }

    /// The value of an optional count, zero when absent.
    pub open spec fn or_zero(v: Option<u32>) -> u32 {
        match v {
            Option::Some(x) => x,
            Option::None => 0,
        }
    }

    /// The sanity bounds the numeric options must satisfy against the
    /// instance's node count, absent options counting as zero, and the
    /// non-emptiness of the text fields.
    pub open spec fn params_ok(&self, nodes: u32) -> bool {
        &&& (self.name matches Some(n) ==> n@.len() > 0)
        &&& (self.description matches Some(d) ==> d@.len() > 0)
        &&& Self::or_zero(self.min_deg) < nodes
        &&& Self::or_zero(self.max_deg) < nodes
        &&& Self::or_zero(self.num_ccs) <= nodes
        &&& Self::or_zero(self.nodes_largest_cc) <= nodes
        &&& Self::or_zero(self.num_ccs) + Self::or_zero(self.nodes_largest_cc) <= nodes + 1
        &&& Self::or_zero(self.diameter) < nodes
        &&& Self::or_zero(self.tree_width) <= nodes
    }
}

/// The instance row with the requested fields replaced.
pub open spec fn apply_meta(row: InstanceRow, req: UpdateRequest) -> InstanceRow {
    InstanceRow {
        name: if req.name is Some {
            req.name
        } else {
            row.name
        },
        description: if req.description is Some {
            req.description
        } else {
            row.description
        },
        min_deg: if req.min_deg is Some {
            req.min_deg
        } else {
            row.min_deg
        },
        max_deg: if req.max_deg is Some {
            req.max_deg
        } else {
            row.max_deg
        },
        num_ccs: if req.num_ccs is Some {
            req.num_ccs
        } else {
            row.num_ccs
        },
        nodes_largest_cc: if req.nodes_largest_cc is Some {
            req.nodes_largest_cc
        } else {
            row.nodes_largest_cc
        },
        diameter: if req.diameter is Some {
            req.diameter
        } else {
            row.diameter
        },
        treewidth: if req.tree_width is Some {
            req.tree_width
        } else {
            row.treewidth
        },
        planar: if req.planar is Some {
            req.planar
        } else {
            row.planar
        },
        ..row
    }
}

/// All tables coincide: nothing happened.
pub open spec fn same_state(a: Store, b: Store) -> bool {
    &&& a.instances == b.instances
    &&& a.instance_data == b.instance_data
    &&& a.solutions == b.solutions
    &&& a.solution_data == b.solution_data
    &&& a.solver_runs == b.solver_runs
    &&& a.tags == b.tags
    &&& a.instance_tags == b.instance_tags
    &&& a.next_iid == b.next_iid
    &&& a.next_did == b.next_did
    &&& a.next_sid == b.next_sid
    &&& a.next_tid == b.next_tid
    &&& a.next_sr_id == b.next_sr_id
}

impl Store {
    /// Index of the tag with a given name.
    pub fn find_tag_by_name(&self, name: &Vec<u8>) -> (r: Option<usize>)
        ensures
            r matches Some(i) ==> i < self.tags@.len() && self.tags@[i as int].name@ == name@,
            r is Some <==> has_tag_name(self.tags@, name@),
    {
        let mut i: usize = 0;
        while i < self.tags.len()
            invariant
                0 <= i <= self.tags@.len(),
                forall|k: int| 0 <= k < i ==> (#[trigger] self.tags@[k]).name@ != name@,
            decreases self.tags@.len() - i,
        {
            if bytes_eq(&self.tags[i].name, name) {
                return Some(i);
            }
            i = i + 1;
        }
        proof {
            if has_tag_name(self.tags@, name@) {
                let k = choose|k: int|
                    0 <= k < self.tags@.len() && (#[trigger] self.tags@[k]).name@ == name@;
            }
        }
        None
    }

    /// Creates a tag. The trimmed name must be non-empty, must not start
    /// with a digit, and must be new; violations leave the store unchanged.
    pub fn tag_create(&mut self, req: TagCreateRequest) -> (r: Result<u32, CoreError>)
        requires
            old(self).wf(),
            old(self).next_tid < u32::MAX,
        ensures
            final(self).wf(),
            r is Ok <==> (crate::solution::trim_spaces(req.name@).len() > 0
                && !crate::text::is_digit(crate::solution::trim_spaces(req.name@)[0])
                && !has_tag_name(old(self).tags@, crate::solution::trim_spaces(req.name@))),
            r matches Ok(tid) ==> {
                &&& tid == old(self).next_tid
                &&& final(self).tags@.len() == old(self).tags@.len() + 1
                &&& final(self).tags@.subrange(0, old(self).tags@.len() as int) == old(self).tags@
                &&& final(self).tags@.last().tid == tid
                &&& final(self).tags@.last().name@ == crate::solution::trim_spaces(req.name@)
                &&& final(self).tags@.last().style == req.style
                &&& final(self).next_tid == old(self).next_tid + 1
                &&& final(self).instances == old(self).instances
                &&& final(self).solutions == old(self).solutions
                &&& final(self).instance_data == old(self).instance_data
                &&& final(self).solution_data == old(self).solution_data
            },
            r matches Err(e) ==> same_state(*final(self), *old(self)) && (e.kind
                == ErrorKind::BadInput || e.kind == ErrorKind::Conflict),
    {
        let name = crate::solution::trim_spaces_exec(&req.name);
        let description = match req.description {
            Some(d) => Some(crate::solution::trim_spaces_exec(&d)),
            None => None,
        };
        if name.len() == 0 {
            return Err(CoreError::bad_input("tag name is required"));
        }
        if name[0] >= 48 && name[0] <= 57 {
            return Err(CoreError::bad_input("tag name cannot start with a number"));
        }
        if self.find_tag_by_name(&name).is_some() {
            return Err(CoreError::new(ErrorKind::Conflict, "tag name already exists"));
        }
        let tid = self.next_tid;
        let ghost old_tags = self.tags@;
        self.tags.push(TagRow { tid, name, description, style: req.style });
        self.next_tid = self.next_tid + 1;
        proof {
            assert(final(self).tags@.subrange(0, old_tags.len() as int) =~= old_tags);
            assert forall|i: int, j: int| 0 <= i < j < self.tags@.len() implies (
            #[trigger] self.tags@[i]).tid != (#[trigger] self.tags@[j]).tid by {
                if j < old_tags.len() {
                    assert(self.tags@[i] == old_tags[i] && self.tags@[j] == old_tags[j]);
                } else {
                    assert(self.tags@[i] == old_tags[i]);
                    assert(self.tags@[j].tid == old(self).next_tid);
                }
            }
            assert forall|i: int, j: int| 0 <= i < j < self.tags@.len() implies (
            #[trigger] self.tags@[i]).name@ != (#[trigger] self.tags@[j]).name@ by {
                if j < old_tags.len() {
                    assert(self.tags@[i] == old_tags[i] && self.tags@[j] == old_tags[j]);
                } else {
                    assert(self.tags@[i] == old_tags[i]);
                }
            }
            assert forall|i: int| 0 <= i < self.tags@.len() implies (#[trigger] self.tags@[i]).tid
                < self.next_tid by {
                if i < old_tags.len() {
                    assert(self.tags@[i] == old_tags[i]);
                }
            }
        }
        Ok(tid)
    }

    /// Applies a partial metadata update to one instance after validating
    /// every bound against its node count. An empty update, an out-of-range
    /// value, or an unknown id leaves the store unchanged.
    #[verifier::rlimit(60)]
    pub fn update_instance_meta(&mut self, req: UpdateRequest) -> (r: Result<(), CoreError>)
        requires
            old(self).wf(),
        ensures
            final(self).wf(),
            r is Ok <==> (has_instance(old(self).instances@, req.iid) && req.any_field_set() && (
            forall|i: int|
                0 <= i < old(self).instances@.len() && (#[trigger] old(self).instances@[i]).iid
                    == req.iid ==> req.params_ok(old(self).instances@[i].nodes))),
            r is Ok ==> {
                &&& final(self).instances@.len() == old(self).instances@.len()
                &&& forall|j: int|
                    0 <= j < old(self).instances@.len() ==> final(self).instances@[j] == (if (
                    #[trigger] old(self).instances@[j]).iid == req.iid {
                        apply_meta(old(self).instances@[j], req)
                    } else {
                        old(self).instances@[j]
                    })
                &&& final(self).instance_data == old(self).instance_data
                &&& final(self).solutions == old(self).solutions
                &&& final(self).solution_data == old(self).solution_data
                &&& final(self).tags == old(self).tags
                &&& final(self).instance_tags == old(self).instance_tags
            },
            r matches Err(e) ==> same_state(*final(self), *old(self)) && e.kind == (if (
            req.name matches Some(n) && n@.len() == 0) || (req.description matches Some(d)
                && d@.len() == 0) {
                ErrorKind::BadInput
            } else if !has_instance(old(self).instances@, req.iid) {
                ErrorKind::NotFound
            } else {
                ErrorKind::BadInput
            }),
    {
        match &req.name {
            Some(n) => {
                if n.len() == 0 {
                    return Err(CoreError::bad_input("name cannot be empty"));
                }
            },
            None => {},
        }
        match &req.description {
            Some(d) => {
                if d.len() == 0 {
                    return Err(CoreError::bad_input("description cannot be empty"));
                }
            },
            None => {},
        }
        let idx = match self.find_instance(req.iid) {
            Some(i) => i,
            None => {
                return Err(CoreError::new(ErrorKind::NotFound, "no such instance"));
            },
        };
        let nodes = self.instances[idx].nodes;
        let min_deg_v = match req.min_deg {
            Some(v) => v,
            None => 0,
        };
        if min_deg_v >= nodes {
            return Err(
                CoreError::bad_input("minimum degree cannot be greater than number of nodes"),
            );
        }
        let max_deg_v = match req.max_deg {
            Some(v) => v,
            None => 0,
        };
        if max_deg_v >= nodes {
            return Err(
                CoreError::bad_input("maximum degree cannot be greater than number of nodes"),
            );
        }
        let num_ccs_v = match req.num_ccs {
            Some(v) => v,
            None => 0,
        };
        if num_ccs_v > nodes {
            return Err(
                CoreError::bad_input(
                    "number of connected components cannot be greater than number of nodes",
                ),
            );
        }
        let nlcc_v = match req.nodes_largest_cc {
            Some(v) => v,
            None => 0,
        };
        if nlcc_v > nodes {
            return Err(
                CoreError::bad_input(
                    "number of nodes in largest connected component cannot be greater than number of nodes",
                ),
            );
        }
        if num_ccs_v as u64 + nlcc_v as u64 > nodes as u64 + 1 {
            return Err(
                CoreError::bad_input(
                    "connected component counts cannot be greater than number of nodes",
                ),
            );
        }
        let diameter_v = match req.diameter {
            Some(v) => v,
            None => 0,
        };
        if diameter_v >= nodes {
            return Err(CoreError::bad_input("diameter cannot be greater than number of nodes"));
        }
        let tw_v = match req.tree_width {
            Some(v) => v,
            None => 0,
        };
        if tw_v > nodes {
            return Err(CoreError::bad_input("tree width cannot be greater than number of nodes"));
        }
        let any_set = req.name.is_some() || req.description.is_some() || req.min_deg.is_some()
            || req.max_deg.is_some() || req.num_ccs.is_some() || req.nodes_largest_cc.is_some()
            || req.diameter.is_some() || req.tree_width.is_some() || req.planar.is_some();
        if !any_set {
            return Err(CoreError::bad_input("no fields to update"));
        }
        proof {
            assert forall|i: int|
                0 <= i < self.instances@.len() && (#[trigger] self.instances@[i]).iid == req.iid
                    implies req.params_ok(self.instances@[i].nodes) by {
                if i != idx as int {
                    assert((self.instances@[i]).iid != (self.instances@[idx as int]).iid);
                }
            }
        }
        let ghost old_insts = self.instances@;
        let mut row = self.instances.remove(idx);
        if req.name.is_some() {
            row.name = req.name;
        }
        if req.description.is_some() {
            row.description = req.description;
        }
        if req.min_deg.is_some() {
            row.min_deg = req.min_deg;
        }
        if req.max_deg.is_some() {
            row.max_deg = req.max_deg;
        }
        if req.num_ccs.is_some() {
            row.num_ccs = req.num_ccs;
        }
        if req.nodes_largest_cc.is_some() {
            row.nodes_largest_cc = req.nodes_largest_cc;
        }
        if req.diameter.is_some() {
            row.diameter = req.diameter;
        }
        if req.tree_width.is_some() {
            row.treewidth = req.tree_width;
        }
        if req.planar.is_some() {
            row.planar = req.planar;
        }
        proof {
            assert(row == apply_meta(old_insts[idx as int], req));
        }
        self.instances.insert(idx, row);
        proof {
            assert(self.instances@ =~= old_insts.update(
                idx as int,
                apply_meta(old_insts[idx as int], req),
            ));
            assert(self.instances@[idx as int] == apply_meta(old_insts[idx as int], req));
            assert forall|j: int| 0 <= j < old_insts.len() implies self.instances@[j] == (if (
            #[trigger] old_insts[j]).iid == req.iid {
                apply_meta(old_insts[j], req)
            } else {
                old_insts[j]
            }) by {
                if j != idx as int {
                    assert(self.instances@[j] == old_insts[j]);
                    assert(old_insts[j].iid != old_insts[idx as int].iid);
                }
            }
            assert forall|i: int, j: int| 0 <= i < j < self.instances@.len() implies (
            #[trigger] self.instances@[i]).iid != (#[trigger] self.instances@[j]).iid by {
                assert(self.instances@[i].iid == old_insts[i].iid);
                assert(self.instances@[j].iid == old_insts[j].iid);
            }
            assert forall|i: int| 0 <= i < self.instances@.len() implies has_did(
                self.instance_data@,
                (#[trigger] self.instances@[i]).data_did,
            ) && self.instances@[i].iid < self.next_iid && self.instances@[i].best_score
                == min_valid_score(self.solutions@, self.instances@[i].iid) by {
                assert(self.instances@[i].data_did == old_insts[i].data_did);
                assert(self.instances@[i].best_score == old_insts[i].best_score);
            }
            assert forall|i: int| 0 <= i < self.instance_data@.len() implies data_referenced(
                self.instances@,
                (#[trigger] self.instance_data@[i]).did,
            ) by {
                let k = choose|k: int|
                    0 <= k < old_insts.len() && (#[trigger] old_insts[k]).data_did
                        == self.instance_data@[i].did;
                assert(self.instances@[k].data_did == old_insts[k].data_did);
            }
            assert forall|i: int| 0 <= i < self.solutions@.len() implies has_instance(
                self.instances@,
                (#[trigger] self.solutions@[i]).instance_iid,
            ) by {
                let k = choose|k: int|
                    0 <= k < old_insts.len() && (#[trigger] old_insts[k]).iid
                        == self.solutions@[i].instance_iid;
                assert(self.instances@[k].iid == old_insts[k].iid);
            }
        }
        Ok(())
    }
}

/// A request to upload a new instance.
pub struct InstanceUploadRequest {
    pub name: Option<Vec<u8>>,
    pub description: Option<Vec<u8>>,
    pub submitted_by: Option<Vec<u8>>,
    pub tags: Option<Vec<Vec<u8>>>,
    pub ignore_header: Option<bool>,
    pub data: Vec<u8>,
}

impl InstanceUploadRequest {
    /// Whether the header consistency check applies: on unless disabled.
    pub open spec fn check_header_spec(&self) -> bool {
        match self.ignore_header {
            Option::Some(b) => !b,
            Option::None => true,
        }
    }

    /// The requested tag names.
    pub open spec fn tag_names(&self) -> Seq<Seq<u8>> {
        match self.tags {
            Option::Some(t) => t.deep_view(),
            Option::None => Seq::<Seq<u8>>::empty(),
        }
    }
}

/// The tag id under a name; meaningful where the name exists and tag
/// names are unique.
pub open spec fn tid_by_name(tags: Seq<TagRow>, name: Seq<u8>) -> u32 {
    let i = choose|i: int| 0 <= i < tags.len() && (#[trigger] tags[i]).name@ == name;
    tags[i].tid
}

/// No solution row references this instance, so it has no best score.
proof fn lemma_min_valid_score_absent(sols: Seq<SolutionRow>, iid: u32)
    requires
        forall|i: int| 0 <= i < sols.len() ==> (#[trigger] sols[i]).instance_iid != iid,
    ensures
        min_valid_score(sols, iid) is None,
    decreases sols.len(),
{
    if sols.len() > 0 {
        lemma_min_valid_score_absent(sols.drop_last(), iid);
        assert(sols[sols.len() - 1].instance_iid != iid);
    }
}

impl Store {
    /// Index of the instance payload with a given content hash.
    pub fn find_data_by_hash(&self, h: &Vec<u8>) -> (r: Option<usize>)
        ensures
            r matches Some(i) ==> i < self.instance_data@.len()
                && self.instance_data@[i as int].hash@ == h@,
            r is Some <==> has_data_hash(self.instance_data@, h@),
    {
        let mut i: usize = 0;
        while i < self.instance_data.len()
            invariant
                0 <= i <= self.instance_data@.len(),
                forall|k: int| 0 <= k < i ==> (#[trigger] self.instance_data@[k]).hash@ != h@,
            decreases self.instance_data@.len() - i,
        {
            if bytes_eq(&self.instance_data[i].hash, h) {
                return Some(i);
            }
            i = i + 1;
        }
        proof {
            if has_data_hash(self.instance_data@, h@) {
                let k = choose|k: int|
                    0 <= k < self.instance_data@.len() && (#[trigger] self.instance_data@[k]).hash@
                        == h@;
            }
        }
        None
    }

    /// Uploads an instance: canonicalize the document, share or create the
    /// content-addressed payload row, insert the instance, and link its
    /// tags. A document the canonicalizer refuses or an unknown tag name
    /// leaves the store unchanged.
    #[verifier::rlimit(100)]
    pub fn upload_instance(&mut self, req: InstanceUploadRequest, now: u64) -> (r: Result<
        u32,
        CoreError,
    >)
        requires
            old(self).wf(),
            old(self).next_iid < u32::MAX,
            old(self).next_did < u32::MAX,
        ensures
            final(self).wf(),
            r is Ok <==> (crate::canonical::canon_ok(req.data@, req.check_header_spec()) && (
            forall|k: int|
                0 <= k < req.tag_names().len() ==> has_tag_name(
                    old(self).tags@,
                    #[trigger] req.tag_names()[k],
                ))),
            r matches Ok(iid) ==> {
                let raw = crate::instance_reader::parse_instance(req.data@)->Some_0.3;
                let h = crate::canonical::sha256_of(crate::canonical::canon_bytes(raw));
                let nr = final(self).instances@.last();
                &&& iid == old(self).next_iid
                &&& final(self).next_iid == old(self).next_iid + 1
                &&& final(self).instances@.len() == old(self).instances@.len() + 1
                &&& final(self).instances@.subrange(0, old(self).instances@.len() as int) == old(self).instances@
                &&& nr.iid == iid
                &&& nr.nodes == crate::canonical::canon_node_count(raw)
                &&& nr.edges == crate::canonical::canon_edges(raw).len()
                &&& opt_bytes_view(nr.name) == opt_bytes_view(req.name)
                &&& opt_bytes_view(nr.description) == opt_bytes_view(req.description)
                &&& opt_bytes_view(nr.submitted_by) == opt_bytes_view(req.submitted_by)
                &&& nr.best_score is None
                &&& nr.created_at == now
                &&& final(self).next_sid == old(self).next_sid
                &&& final(self).next_tid == old(self).next_tid
                &&& final(self).next_sr_id == old(self).next_sr_id
                &&& (if has_data_hash(old(self).instance_data@, h) {
                    final(self).instance_data == old(self).instance_data && final(self).next_did
                        == old(self).next_did && has_did(
                        old(self).instance_data@,
                        nr.data_did,
                    ) && (exists|j: int|
                        0 <= j < old(self).instance_data@.len() && (#[trigger] old(self).instance_data@[j]).hash@ == h && old(self).instance_data@[j].did
                            == nr.data_did)
                } else {
                    final(self).instance_data@.len() == old(self).instance_data@.len() + 1
                        && final(self).instance_data@.subrange(
                        0,
                        old(self).instance_data@.len() as int,
                    ) == old(self).instance_data@ && final(self).instance_data@.last().did == old(self).next_did && final(self).instance_data@.last().hash@ == h && final(self).instance_data@.last().data@ == crate::canonical::canon_bytes(raw)
                        && nr.data_did == old(self).next_did && final(self).next_did == old(self).next_did + 1
                })
                &&& final(self).instance_tags@.len() == old(self).instance_tags@.len()
                    + req.tag_names().len()
                &&& final(self).instance_tags@.subrange(0, old(self).instance_tags@.len() as int)
                    == old(self).instance_tags@
                &&& forall|k: int|
                    0 <= k < req.tag_names().len() ==> (#[trigger] final(self).instance_tags@[old(self).instance_tags@.len() + k]).instance_iid == iid
                        && final(self).instance_tags@[old(self).instance_tags@.len() + k].tag_tid
                        == tid_by_name(old(self).tags@, req.tag_names()[k])
                &&& final(self).solutions == old(self).solutions
                &&& final(self).solution_data == old(self).solution_data
                &&& final(self).solver_runs == old(self).solver_runs
                &&& final(self).tags == old(self).tags
            },
            r matches Err(e) ==> same_state(*final(self), *old(self)) && (e.kind
                == ErrorKind::BadInput || e.kind == ErrorKind::NotFound),
    {
        let check_header = match req.ignore_header {
            Some(b) => !b,
            None => true,
        };
        let ci = match crate::canonical::normalize_dimacs(req.data.as_slice(), check_header) {
            Ok(ci) => ci,
            Err(e) => {
                return Err(CoreError::bad_input(e.message));
            },
        };
        let tag_names = match req.tags {
            Some(t) => t,
            None => Vec::new(),
        };
        proof {
            assert(tag_names.deep_view() =~~= req.tag_names());
        }
        let mut tids: Vec<u32> = Vec::new();
        let mut t: usize = 0;
        while t < tag_names.len()
            invariant
                0 <= t <= tag_names@.len(),
                tag_names.deep_view() == req.tag_names(),
                tids@.len() == t,
                self.wf(),
                same_state(*self, *old(self)),
                forall|k: int|
                    0 <= k < t ==> has_tag_name(self.tags@, #[trigger] req.tag_names()[k]),
                forall|k: int|
                    0 <= k < t ==> #[trigger] tids@[k] == tid_by_name(
                        self.tags@,
                        req.tag_names()[k],
                    ),
            decreases tag_names@.len() - t,
        {
            proof {
                assert(tag_names@[t as int]@ =~= req.tag_names()[t as int]);
            }
            match self.find_tag_by_name(&tag_names[t]) {
                Some(j) => {
                    let tid = self.tags[j].tid;
                    proof {
                        assert(has_tag_name(self.tags@, req.tag_names()[t as int]));
                        let i0 = choose|i0: int|
                            0 <= i0 < self.tags@.len() && (#[trigger] self.tags@[i0]).name@
                                == req.tag_names()[t as int];
                        if i0 != j as int {
                            assert((self.tags@[i0]).name@ != (self.tags@[j as int]).name@);
                        }
                        assert(tid == tid_by_name(self.tags@, req.tag_names()[t as int]));
                    }
                    let ghost old_tids = tids@;
                    tids.push(tid);
                    proof {
                        assert(tids@[t as int] == tid);
                        assert forall|k: int| 0 <= k < t + 1 implies has_tag_name(
                            self.tags@,
                            #[trigger] req.tag_names()[k],
                        ) by {}
                        assert forall|k: int| 0 <= k < t + 1 implies #[trigger] tids@[k]
                            == tid_by_name(self.tags@, req.tag_names()[k]) by {
                            if k < t {
                                assert(tids@[k] == old_tids[k]);
                            }
                        }
                    }
                },
                None => {
                    return Err(CoreError::new(ErrorKind::NotFound, "unknown tag name"));
                },
            }
            t = t + 1;
        }
        // share or create the payload row
        let ghost h = ci.hash@;
        let ghost old_data = self.instance_data@;
        let did: u32;
        match self.find_data_by_hash(&ci.hash) {
            Some(j) => {
                did = self.instance_data[j].did;
            },
            None => {
                did = self.next_did;
                self.instance_data.push(
                    InstanceDataRow { did, hash: ci.hash, data: ci.data },
                );
                self.next_did = self.next_did + 1;
                proof {
                    assert(self.instance_data@.subrange(0, old_data.len() as int) =~= old_data);
                }
            },
        }
        // the instance row itself
        let iid = self.next_iid;
        let ghost old_insts = self.instances@;
        self.instances.push(
            InstanceRow {
                iid,
                data_did: did,
                nodes: ci.nodes,
                edges: ci.edges,
                name: req.name,
                description: req.description,
                submitted_by: req.submitted_by,
                best_score: None,
                min_deg: None,
                max_deg: None,
                num_ccs: None,
                nodes_largest_cc: None,
                diameter: None,
                treewidth: None,
                planar: None,
                bipartite: None,
                created_at: now,
            },
        );
        self.next_iid = self.next_iid + 1;
        // tag links
        let ghost old_links = self.instance_tags@;
        let ghost insts_snap = self.instances;
        let ghost data_snap = self.instance_data;
        let ghost sols_snap = self.solutions;
        let ghost sdata_snap = self.solution_data;
        let ghost runs_snap = self.solver_runs;
        let ghost tags_snap = self.tags;
        let ghost niid_snap = self.next_iid;
        let ghost ndid_snap = self.next_did;
        let ghost nsid_snap = self.next_sid;
        let ghost ntid_snap = self.next_tid;
        let ghost nsrid_snap = self.next_sr_id;
        let mut l: usize = 0;
        while l < tids.len()
            invariant
                0 <= l <= tids@.len(),
                self.instances == insts_snap,
                self.instance_data == data_snap,
                self.solutions == sols_snap,
                self.solution_data == sdata_snap,
                self.solver_runs == runs_snap,
                self.tags == tags_snap,
                self.next_iid == niid_snap,
                self.next_did == ndid_snap,
                self.next_sid == nsid_snap,
                self.next_tid == ntid_snap,
                self.next_sr_id == nsrid_snap,
                self.instance_tags@.len() == old_links.len() + l,
                self.instance_tags@.subrange(0, old_links.len() as int) == old_links,
                forall|k: int|
                    0 <= k < l ==> (#[trigger] self.instance_tags@[old_links.len() + k]).instance_iid
                        == iid && self.instance_tags@[old_links.len() + k].tag_tid == tids@[k],
            decreases tids@.len() - l,
        {
            let ghost before_links = self.instance_tags@;
            self.instance_tags.push(InstanceTagRow { instance_iid: iid, tag_tid: tids[l] });
            proof {
                assert(self.instance_tags@.subrange(0, old_links.len() as int) =~= old_links);
                assert forall|k: int|
                    0 <= k < l + 1 implies (#[trigger] self.instance_tags@[old_links.len()
                    + k]).instance_iid == iid && self.instance_tags@[old_links.len() + k].tag_tid
                    == tids@[k] by {
                    if k < l {
                        assert(self.instance_tags@[old_links.len() + k] == before_links[old_links.len() + k]);
                    }
                }
            }
            l = l + 1;
        }
        proof {
            assert(self.instances@.subrange(0, old_insts.len() as int) =~= old_insts);
            let nr = self.instances@.last();
            // uniqueness of the new keys
            assert forall|i: int, j: int| 0 <= i < j < self.instances@.len() implies (
            #[trigger] self.instances@[i]).iid != (#[trigger] self.instances@[j]).iid by {
                if j < old_insts.len() {
                    assert(self.instances@[i] == old_insts[i] && self.instances@[j] == old_insts[j]);
                } else {
                    assert(self.instances@[i] == old_insts[i]);
                }
            }
            assert forall|i: int, j: int| 0 <= i < j < self.instance_data@.len() implies (
            #[trigger] self.instance_data@[i]).did != (#[trigger] self.instance_data@[j]).did && (
            self.instance_data@[i]).hash@ != (self.instance_data@[j]).hash@ by {
                if j < old_data.len() {
                    assert(self.instance_data@[i] == old_data[i] && self.instance_data@[j]
                        == old_data[j]);
                } else {
                    assert(self.instance_data@[i] == old_data[i]);
                }
            }
            // every payload row is referenced, and every reference resolves
            assert forall|i: int| 0 <= i < self.instances@.len() implies has_did(
                self.instance_data@,
                (#[trigger] self.instances@[i]).data_did,
            ) by {
                if i < old_insts.len() {
                    assert(self.instances@[i] == old_insts[i]);
                    let k = choose|k: int|
                        0 <= k < old_data.len() && (#[trigger] old_data[k]).did
                            == old_insts[i].data_did;
                    assert(self.instance_data@[k].did == old_insts[i].data_did);
                } else {
                    if has_data_hash(old_data, h) {
                        let k = choose|k: int|
                            0 <= k < old_data.len() && (#[trigger] old_data[k]).hash@ == h
                                && old_data[k].did == nr.data_did;
                        assert(self.instance_data@[k].did == nr.data_did);
                    } else {
                        assert(self.instance_data@.last().did == nr.data_did);
                    }
                }
            }
            assert forall|i: int| 0 <= i < self.instance_data@.len() implies data_referenced(
                self.instances@,
                (#[trigger] self.instance_data@[i]).did,
            ) by {
                if i < old_data.len() {
                    assert(self.instance_data@[i] == old_data[i]);
                    let k = choose|k: int|
                        0 <= k < old_insts.len() && (#[trigger] old_insts[k]).data_did
                            == old_data[i].did;
                    assert(self.instances@[k].data_did == old_data[i].did);
                } else {
                    assert(self.instances@.last().data_did == self.instance_data@[i].did);
                    assert(self.instances@[self.instances@.len() - 1].data_did
                        == self.instance_data@[i].did);
                }
            }
            // solutions see the same instances, plus one they do not use
            assert forall|i: int| 0 <= i < self.solutions@.len() implies has_instance(
                self.instances@,
                (#[trigger] self.solutions@[i]).instance_iid,
            ) by {
                let k = choose|k: int|
                    0 <= k < old_insts.len() && (#[trigger] old_insts[k]).iid
                        == self.solutions@[i].instance_iid;
                assert(self.instances@[k].iid == self.solutions@[i].instance_iid);
            }
            // best scores: the fresh instance has no solutions yet
            assert forall|i: int| 0 <= i < self.instances@.len() implies (
            #[trigger] self.instances@[i]).best_score == min_valid_score(
                self.solutions@,
                self.instances@[i].iid,
            ) by {
                if i < old_insts.len() {
                    assert(self.instances@[i] == old_insts[i]);
                } else {
                    assert(self.instances@[i].iid == old(self).next_iid);
                    assert forall|s: int| 0 <= s < self.solutions@.len() implies (
                    #[trigger] self.solutions@[s]).instance_iid != old(self).next_iid by {
                        let k = choose|k: int|
                            0 <= k < old_insts.len() && (#[trigger] old_insts[k]).iid
                                == self.solutions@[s].instance_iid;
                    }
                    lemma_min_valid_score_absent(self.solutions@, old(self).next_iid);
                }
            }
            assert forall|i: int| 0 <= i < self.instances@.len() implies (
            #[trigger] self.instances@[i]).iid < self.next_iid by {
                if i < old_insts.len() {
                    assert(self.instances@[i] == old_insts[i]);
                }
            }
            assert forall|i: int| 0 <= i < self.instance_data@.len() implies (
            #[trigger] self.instance_data@[i]).did < self.next_did by {
                if i < old_data.len() {
                    assert(self.instance_data@[i] == old_data[i]);
                }
            }
        }
        Ok(iid)
    }
}

/// Equality of the parts a deletion never touches.
pub open spec fn same_state_counters(a: Store, b: Store) -> bool {
    &&& a.next_iid == b.next_iid
    &&& a.next_did == b.next_did
    &&& a.next_sid == b.next_sid
    &&& a.next_tid == b.next_tid
    &&& a.next_sr_id == b.next_sr_id
    &&& a.tags == b.tags
    &&& a.solver_runs == b.solver_runs
}

pub open spec fn same_state_except_links(a: Store, b: Store) -> bool {
    &&& same_state_counters(a, b)
    &&& a.instances == b.instances
    &&& a.instance_data == b.instance_data
    &&& a.solutions == b.solutions
    &&& a.solution_data == b.solution_data
}

pub open spec fn same_state_except_links_sols(a: Store, b: Store) -> bool {
    &&& same_state_counters(a, b)
    &&& a.instances == b.instances
    &&& a.instance_data == b.instance_data
    &&& a.solution_data == b.solution_data
}

pub open spec fn same_state_except_links_sols_sdata(a: Store, b: Store) -> bool {
    &&& same_state_counters(a, b)
    &&& a.instances == b.instances
    &&& a.instance_data == b.instance_data
}

pub open spec fn same_state_except_most(a: Store, b: Store) -> bool {
    &&& same_state_counters(a, b)
    &&& a.instance_data == b.instance_data
}

/// The instance rows that survive deleting `iid`.
pub open spec fn insts_without(s: Seq<InstanceRow>, iid: u32) -> Seq<InstanceRow>
    decreases s.len(),
{
    if s.len() == 0 {
        seq![]
    } else {
        let r = insts_without(s.drop_last(), iid);
        if s.last().iid == iid {
            r
        } else {
            r.push(s.last())
        }
    }
}

/// The tag links that survive deleting instance `iid`.
pub open spec fn links_without(s: Seq<InstanceTagRow>, iid: u32) -> Seq<InstanceTagRow>
    decreases s.len(),
{
    if s.len() == 0 {
        seq![]
    } else {
        let r = links_without(s.drop_last(), iid);
        if s.last().instance_iid == iid {
            r
        } else {
            r.push(s.last())
        }
    }
}

/// The solution rows that survive deleting instance `iid`.
pub open spec fn sols_without(s: Seq<SolutionRow>, iid: u32) -> Seq<SolutionRow>
    decreases s.len(),
{
    if s.len() == 0 {
        seq![]
    } else {
        let r = sols_without(s.drop_last(), iid);
        if s.last().instance_iid == iid {
            r
        } else {
            r.push(s.last())
        }
    }
}

/// The solution payloads still referenced by some remaining solution.
pub open spec fn live_sol_data(s: Seq<SolutionDataRow>, sols: Seq<SolutionRow>) -> Seq<
    SolutionDataRow,
>
    decreases s.len(),
{
    if s.len() == 0 {
        seq![]
    } else {
        let r = live_sol_data(s.drop_last(), sols);
        if sol_hash_referenced(sols, s.last().hash@) {
            r.push(s.last())
        } else {
            r
        }
    }
}

/// The instance payloads still referenced by some remaining instance.
pub open spec fn live_inst_data(s: Seq<InstanceDataRow>, insts: Seq<InstanceRow>) -> Seq<
    InstanceDataRow,
>
    decreases s.len(),
{
    if s.len() == 0 {
        seq![]
    } else {
        let r = live_inst_data(s.drop_last(), insts);
        if data_referenced(insts, s.last().did) {
            r.push(s.last())
        } else {
            r
        }
    }
}

proof fn lemma_insts_without_props(s: Seq<InstanceRow>, iid: u32)
    ensures
        forall|x: InstanceRow| #[trigger] insts_without(s, iid).contains(x) <==> s.contains(x)
            && x.iid != iid,
        unique_iids(s) ==> unique_iids(insts_without(s, iid)),
    decreases s.len(),
{
    let r = insts_without(s, iid);
    if s.len() == 0 {
        assert forall|x: InstanceRow| #[trigger] r.contains(x) implies s.contains(x) && x.iid
            != iid by {
            let k = choose|k: int| 0 <= k < r.len() && r[k] == x;
        }
    } else {
        lemma_insts_without_props(s.drop_last(), iid);
        let d = s.drop_last();
        let rd = insts_without(d, iid);
        assert forall|x: InstanceRow| #[trigger] r.contains(x) implies s.contains(x) && x.iid
            != iid by {
            if s.last().iid == iid {
                assert(rd.contains(x));
                assert(d.contains(x));
                let k = choose|k: int| 0 <= k < d.len() && d[k] == x;
                assert(s[k] == x);
            } else {
                let k = choose|k: int| 0 <= k < r.len() && r[k] == x;
                if k < rd.len() {
                    assert(rd.contains(x)) by {
                        assert(rd[k] == x);
                    }
                    assert(d.contains(x));
                    let k2 = choose|k2: int| 0 <= k2 < d.len() && d[k2] == x;
                    assert(s[k2] == x);
                } else {
                    assert(x == s.last());
                    assert(s[s.len() - 1] == x);
                }
            }
        }
        assert forall|x: InstanceRow| s.contains(x) && x.iid != iid implies #[trigger] r.contains(
            x,
        ) by {
            let k = choose|k: int| 0 <= k < s.len() && s[k] == x;
            if k < s.len() - 1 {
                assert(d[k] == x);
                assert(d.contains(x));
                assert(rd.contains(x));
                if s.last().iid == iid {
                } else {
                    let k2 = choose|k2: int| 0 <= k2 < rd.len() && rd[k2] == x;
                    assert(r[k2] == x);
                }
            } else {
                assert(x == s.last());
                assert(r[r.len() - 1] == x);
            }
        }
        if unique_iids(s) {
            assert(unique_iids(d)) by {
                assert forall|i: int, j: int| 0 <= i < j < d.len() implies (#[trigger] d[i]).iid
                    != (#[trigger] d[j]).iid by {
                    assert(s[i] == d[i] && s[j] == d[j]);
                }
            }
            if s.last().iid != iid {
                assert forall|i: int, j: int| 0 <= i < j < r.len() implies (#[trigger] r[i]).iid
                    != (#[trigger] r[j]).iid by {
                    if j < rd.len() {
                        assert(r[i] == rd[i] && r[j] == rd[j]);
                    } else {
                        assert(r[j] == s.last());
                        assert(rd.contains(r[i])) by {
                            assert(rd[i] == r[i]);
                        }
                        assert(d.contains(r[i]));
                        let k = choose|k: int| 0 <= k < d.len() && d[k] == r[i];
                        assert(s[k] == r[i]);
                        assert(s[k].iid != s[s.len() - 1].iid);
                    }
                }
            }
        }
    }
}

proof fn lemma_sols_without_props(s: Seq<SolutionRow>, iid: u32)
    ensures
        forall|x: SolutionRow| #[trigger] sols_without(s, iid).contains(x) <==> s.contains(x)
            && x.instance_iid != iid,
        unique_run_pairs(s) ==> unique_run_pairs(sols_without(s, iid)),
        unique_sids(s) ==> unique_sids(sols_without(s, iid)),
    decreases s.len(),
{
    let r = sols_without(s, iid);
    if s.len() == 0 {
        assert forall|x: SolutionRow| #[trigger] r.contains(x) implies s.contains(x)
            && x.instance_iid != iid by {
            let k = choose|k: int| 0 <= k < r.len() && r[k] == x;
        }
    } else {
        lemma_sols_without_props(s.drop_last(), iid);
        let d = s.drop_last();
        let rd = sols_without(d, iid);
        assert forall|x: SolutionRow| #[trigger] r.contains(x) implies s.contains(x)
            && x.instance_iid != iid by {
            if s.last().instance_iid == iid {
                assert(rd.contains(x));
                assert(d.contains(x));
                let k = choose|k: int| 0 <= k < d.len() && d[k] == x;
                assert(s[k] == x);
            } else {
                let k = choose|k: int| 0 <= k < r.len() && r[k] == x;
                if k < rd.len() {
                    assert(rd.contains(x)) by {
                        assert(rd[k] == x);
                    }
                    assert(d.contains(x));
                    let k2 = choose|k2: int| 0 <= k2 < d.len() && d[k2] == x;
                    assert(s[k2] == x);
                } else {
                    assert(x == s.last());
                    assert(s[s.len() - 1] == x);
                }
            }
        }
        assert forall|x: SolutionRow| s.contains(x) && x.instance_iid != iid implies
            #[trigger] r.contains(x) by {
            let k = choose|k: int| 0 <= k < s.len() && s[k] == x;
            if k < s.len() - 1 {
                assert(d[k] == x);
                assert(d.contains(x));
                assert(rd.contains(x));
                if s.last().instance_iid == iid {
                } else {
                    let k2 = choose|k2: int| 0 <= k2 < rd.len() && rd[k2] == x;
                    assert(r[k2] == x);
                }
            } else {
                assert(x == s.last());
                assert(r[r.len() - 1] == x);
            }
        }
        // a filtered sequence is a subsequence: pairs of kept rows were pairs before
        assert(unique_run_pairs(d) && unique_sids(d) || !(unique_run_pairs(s) && unique_sids(s)))
            by {
            if unique_run_pairs(s) && unique_sids(s) {
                assert forall|i: int, j: int| 0 <= i < j < d.len() implies !((#[trigger] d[i]).sr_uuid
                    == (#[trigger] d[j]).sr_uuid && d[i].instance_iid == d[j].instance_iid) && (
                d[i]).sid != (d[j]).sid by {
                    assert(s[i] == d[i] && s[j] == d[j]);
                }
            }
        }
        if unique_run_pairs(s) && s.last().instance_iid != iid {
            assert forall|i: int, j: int| 0 <= i < j < r.len() implies !((#[trigger] r[i]).sr_uuid
                == (#[trigger] r[j]).sr_uuid && r[i].instance_iid == r[j].instance_iid) by {
                if j < rd.len() {
                    assert(r[i] == rd[i] && r[j] == rd[j]);
                    assert(unique_run_pairs(rd));
                } else {
                    assert(r[j] == s.last());
                    assert(unique_run_pairs(rd));
                    assert(rd.contains(r[i])) by {
                        assert(rd[i] == r[i]);
                    }
                    assert(d.contains(r[i]));
                    let k = choose|k: int| 0 <= k < d.len() && d[k] == r[i];
                    assert(s[k] == r[i]);
                    assert(!(s[k].sr_uuid == s[s.len() - 1].sr_uuid && s[k].instance_iid == s[s.len()
                        - 1].instance_iid));
                }
            }
        }
        if unique_sids(s) && s.last().instance_iid != iid {
            assert forall|i: int, j: int| 0 <= i < j < r.len() implies (#[trigger] r[i]).sid != (
            #[trigger] r[j]).sid by {
                if j < rd.len() {
                    assert(r[i] == rd[i] && r[j] == rd[j]);
                    assert(unique_sids(rd));
                } else {
                    assert(r[j] == s.last());
                    assert(unique_sids(rd));
                    assert(rd.contains(r[i])) by {
                        assert(rd[i] == r[i]);
                    }
                    assert(d.contains(r[i]));
                    let k = choose|k: int| 0 <= k < d.len() && d[k] == r[i];
                    assert(s[k] == r[i]);
                    assert(s[k].sid != s[s.len() - 1].sid);
                }
            }
        }
    }
}

proof fn lemma_links_without_props(s: Seq<InstanceTagRow>, iid: u32)
    ensures
        forall|x: InstanceTagRow| #[trigger] links_without(s, iid).contains(x) <==> s.contains(x)
            && x.instance_iid != iid,
    decreases s.len(),
{
    let r = links_without(s, iid);
    if s.len() == 0 {
        assert forall|x: InstanceTagRow| #[trigger] r.contains(x) implies s.contains(x)
            && x.instance_iid != iid by {
            let k = choose|k: int| 0 <= k < r.len() && r[k] == x;
        }
    } else {
        lemma_links_without_props(s.drop_last(), iid);
        let d = s.drop_last();
        let rd = links_without(d, iid);
        assert forall|x: InstanceTagRow| #[trigger] r.contains(x) implies s.contains(x)
            && x.instance_iid != iid by {
            if s.last().instance_iid == iid {
                assert(rd.contains(x));
                assert(d.contains(x));
                let k = choose|k: int| 0 <= k < d.len() && d[k] == x;
                assert(s[k] == x);
            } else {
                let k = choose|k: int| 0 <= k < r.len() && r[k] == x;
                if k < rd.len() {
                    assert(rd.contains(x)) by {
                        assert(rd[k] == x);
                    }
                    assert(d.contains(x));
                    let k2 = choose|k2: int| 0 <= k2 < d.len() && d[k2] == x;
                    assert(s[k2] == x);
                } else {
                    assert(x == s.last());
                    assert(s[s.len() - 1] == x);
                }
            }
        }
        assert forall|x: InstanceTagRow| s.contains(x) && x.instance_iid != iid implies
            #[trigger] r.contains(x) by {
            let k = choose|k: int| 0 <= k < s.len() && s[k] == x;
            if k < s.len() - 1 {
                assert(d[k] == x);
                assert(d.contains(x));
                assert(rd.contains(x));
                if s.last().instance_iid == iid {
                } else {
                    let k2 = choose|k2: int| 0 <= k2 < rd.len() && rd[k2] == x;
                    assert(r[k2] == x);
                }
            } else {
                assert(x == s.last());
                assert(r[r.len() - 1] == x);
            }
        }
    }
}

proof fn lemma_live_sol_data_props(s: Seq<SolutionDataRow>, sols: Seq<SolutionRow>)
    ensures
        forall|x: SolutionDataRow| #[trigger] live_sol_data(s, sols).contains(x) <==> s.contains(x)
            && sol_hash_referenced(sols, x.hash@),
        unique_sol_hashes(s) ==> unique_sol_hashes(live_sol_data(s, sols)),
    decreases s.len(),
{
    let r = live_sol_data(s, sols);
    if s.len() == 0 {
        assert forall|x: SolutionDataRow| #[trigger] r.contains(x) implies s.contains(x)
            && sol_hash_referenced(sols, x.hash@) by {
            let k = choose|k: int| 0 <= k < r.len() && r[k] == x;
        }
    } else {
        lemma_live_sol_data_props(s.drop_last(), sols);
        let d = s.drop_last();
        let rd = live_sol_data(d, sols);
        assert forall|x: SolutionDataRow| #[trigger] r.contains(x) implies s.contains(x)
            && sol_hash_referenced(sols, x.hash@) by {
            if !sol_hash_referenced(sols, s.last().hash@) {
                assert(rd.contains(x));
                assert(d.contains(x));
                let k = choose|k: int| 0 <= k < d.len() && d[k] == x;
                assert(s[k] == x);
            } else {
                let k = choose|k: int| 0 <= k < r.len() && r[k] == x;
                if k < rd.len() {
                    assert(rd.contains(x)) by {
                        assert(rd[k] == x);
                    }
                    assert(d.contains(x));
                    let k2 = choose|k2: int| 0 <= k2 < d.len() && d[k2] == x;
                    assert(s[k2] == x);
                } else {
                    assert(x == s.last());
                    assert(s[s.len() - 1] == x);
                }
            }
        }
        assert forall|x: SolutionDataRow| s.contains(x) && sol_hash_referenced(sols, x.hash@)
            implies #[trigger] r.contains(x) by {
            let k = choose|k: int| 0 <= k < s.len() && s[k] == x;
            if k < s.len() - 1 {
                assert(d[k] == x);
                assert(d.contains(x));
                assert(rd.contains(x));
                if !sol_hash_referenced(sols, s.last().hash@) {
                } else {
                    let k2 = choose|k2: int| 0 <= k2 < rd.len() && rd[k2] == x;
                    assert(r[k2] == x);
                }
            } else {
                assert(x == s.last());
                assert(r[r.len() - 1] == x);
            }
        }
        if unique_sol_hashes(s) {
            assert(unique_sol_hashes(d)) by {
                assert forall|i: int, j: int| 0 <= i < j < d.len() implies (#[trigger] d[i]).hash@
                    != (#[trigger] d[j]).hash@ by {
                    assert(s[i] == d[i] && s[j] == d[j]);
                }
            }
            if sol_hash_referenced(sols, s.last().hash@) {
                assert forall|i: int, j: int| 0 <= i < j < r.len() implies (#[trigger] r[i]).hash@
                    != (#[trigger] r[j]).hash@ by {
                    if j < rd.len() {
                        assert(r[i] == rd[i] && r[j] == rd[j]);
                        assert(unique_sol_hashes(rd));
                    } else {
                        assert(r[j] == s.last());
                        assert(unique_sol_hashes(rd));
                        assert(rd.contains(r[i])) by {
                            assert(rd[i] == r[i]);
                        }
                        assert(d.contains(r[i]));
                        let k = choose|k: int| 0 <= k < d.len() && d[k] == r[i];
                        assert(s[k] == r[i]);
                        assert(s[k].hash@ != s[s.len() - 1].hash@);
                    }
                }
            }
        }
    }
}

proof fn lemma_live_inst_data_props(s: Seq<InstanceDataRow>, insts: Seq<InstanceRow>)
    ensures
        forall|x: InstanceDataRow| #[trigger] live_inst_data(s, insts).contains(x) <==> s.contains(
            x,
        ) && data_referenced(insts, x.did),
        unique_dids(s) && unique_data_hashes(s) ==> unique_dids(live_inst_data(s, insts))
            && unique_data_hashes(live_inst_data(s, insts)),
    decreases s.len(),
{
    let r = live_inst_data(s, insts);
    if s.len() == 0 {
        assert forall|x: InstanceDataRow| #[trigger] r.contains(x) implies s.contains(x)
            && data_referenced(insts, x.did) by {
            let k = choose|k: int| 0 <= k < r.len() && r[k] == x;
        }
    } else {
        lemma_live_inst_data_props(s.drop_last(), insts);
        let d = s.drop_last();
        let rd = live_inst_data(d, insts);
        assert forall|x: InstanceDataRow| #[trigger] r.contains(x) implies s.contains(x)
            && data_referenced(insts, x.did) by {
            if !data_referenced(insts, s.last().did) {
                assert(rd.contains(x));
                assert(d.contains(x));
                let k = choose|k: int| 0 <= k < d.len() && d[k] == x;
                assert(s[k] == x);
            } else {
                let k = choose|k: int| 0 <= k < r.len() && r[k] == x;
                if k < rd.len() {
                    assert(rd.contains(x)) by {
                        assert(rd[k] == x);
                    }
                    assert(d.contains(x));
                    let k2 = choose|k2: int| 0 <= k2 < d.len() && d[k2] == x;
                    assert(s[k2] == x);
                } else {
                    assert(x == s.last());
                    assert(s[s.len() - 1] == x);
                }
            }
        }
        assert forall|x: InstanceDataRow| s.contains(x) && data_referenced(insts, x.did) implies
            #[trigger] r.contains(x) by {
            let k = choose|k: int| 0 <= k < s.len() && s[k] == x;
            if k < s.len() - 1 {
                assert(d[k] == x);
                assert(d.contains(x));
                assert(rd.contains(x));
                if !data_referenced(insts, s.last().did) {
                } else {
                    let k2 = choose|k2: int| 0 <= k2 < rd.len() && rd[k2] == x;
                    assert(r[k2] == x);
                }
            } else {
                assert(x == s.last());
                assert(r[r.len() - 1] == x);
            }
        }
        if unique_dids(s) && unique_data_hashes(s) {
            assert(unique_dids(d) && unique_data_hashes(d)) by {
                assert forall|i: int, j: int| 0 <= i < j < d.len() implies (#[trigger] d[i]).did
                    != (#[trigger] d[j]).did && (d[i]).hash@ != (d[j]).hash@ by {
                    assert(s[i] == d[i] && s[j] == d[j]);
                }
            }
            if data_referenced(insts, s.last().did) {
                assert forall|i: int, j: int| 0 <= i < j < r.len() implies (#[trigger] r[i]).did
                    != (#[trigger] r[j]).did && (r[i]).hash@ != (r[j]).hash@ by {
                    if j < rd.len() {
                        assert(r[i] == rd[i] && r[j] == rd[j]);
                        assert(unique_dids(rd) && unique_data_hashes(rd));
                    } else {
                        assert(r[j] == s.last());
                        assert(unique_dids(rd) && unique_data_hashes(rd));
                        assert(rd.contains(r[i])) by {
                            assert(rd[i] == r[i]);
                        }
                        assert(d.contains(r[i]));
                        let k = choose|k: int| 0 <= k < d.len() && d[k] == r[i];
                        assert(s[k] == r[i]);
                        assert(s[k].did != s[s.len() - 1].did);
                        assert(s[k].hash@ != s[s.len() - 1].hash@);
                    }
                }
            }
        }
    }
}

/// Removing the solutions of one instance does not change another
/// instance's best score.
proof fn lemma_min_score_after_delete(s: Seq<SolutionRow>, iid: u32, other: u32)
    requires
        other != iid,
    ensures
        min_valid_score(sols_without(s, iid), other) == min_valid_score(s, other),
    decreases s.len(),
{
    if s.len() > 0 {
        lemma_min_score_after_delete(s.drop_last(), iid, other);
        let r = sols_without(s, iid);
        if s.last().instance_iid == iid {
        } else {
            assert(r.drop_last() =~= sols_without(s.drop_last(), iid));
        }
    }
}

impl Store {
    /// Deletes an instance and cascades: its tag links and solutions go,
    /// then every solution payload no remaining solution references, then
    /// the instance payload if no remaining instance shares it. An unknown
    /// id leaves the store unchanged.
    #[verifier::rlimit(100)]
    pub fn delete_instance(&mut self, iid: u32) -> (r: Result<(), CoreError>)
        requires
            old(self).wf(),
        ensures
            final(self).wf(),
            r is Ok <==> has_instance(old(self).instances@, iid),
            r is Ok ==> {
                &&& final(self).instances@ == insts_without(old(self).instances@, iid)
                &&& final(self).instance_tags@ == links_without(old(self).instance_tags@, iid)
                &&& final(self).solutions@ == sols_without(old(self).solutions@, iid)
                &&& final(self).solution_data@ == live_sol_data(
                    old(self).solution_data@,
                    sols_without(old(self).solutions@, iid),
                )
                &&& final(self).instance_data@ == live_inst_data(
                    old(self).instance_data@,
                    insts_without(old(self).instances@, iid),
                )
                &&& final(self).tags == old(self).tags
                &&& final(self).solver_runs == old(self).solver_runs
                &&& final(self).next_iid == old(self).next_iid
                &&& final(self).next_did == old(self).next_did
            },
            r matches Err(e) ==> same_state(*final(self), *old(self)) && e.kind
                == ErrorKind::NotFound,
    {
        if self.find_instance(iid).is_none() {
            return Err(CoreError::new(ErrorKind::NotFound, "no such instance"));
        }
        let ghost old_insts = self.instances@;
        let ghost old_links = self.instance_tags@;
        let ghost old_sols = self.solutions@;
        let ghost old_sdata = self.solution_data@;
        let ghost old_idata = self.instance_data@;
        let ghost runs_snap = self.solver_runs;
        let ghost tags_snap = self.tags;
        // delete the tag links of the instance
        let mut i: usize = 0;
        let ghost mut ip: int = 0;
        proof {
            assert(links_without(old_links.subrange(0, 0), iid) + old_links.subrange(
                0,
                old_links.len() as int,
            ) =~= old_links);
        }
        while i < self.instance_tags.len()
            invariant
                0 <= i <= self.instance_tags@.len(),
                0 <= ip <= old_links.len(),
                i == links_without(old_links.subrange(0, ip), iid).len(),
                self.instance_tags@ == links_without(old_links.subrange(0, ip), iid)
                    + old_links.subrange(ip, old_links.len() as int),
                same_state_except_links(*self, *old(self)),
            decreases old_links.len() - ip,
        {
            let ghost pre = old_links.subrange(0, ip);
            let ghost post = old_links.subrange(0, ip + 1);
            proof {
                assert(post.drop_last() =~= pre);
                assert(post.last() == old_links[ip]);
                assert(self.instance_tags@[i as int] == old_links[ip]);
            }
            if self.instance_tags[i].instance_iid == iid {
                self.instance_tags.remove(i);
                proof {
                    assert(self.instance_tags@ =~= links_without(post, iid) + old_links.subrange(
                        ip + 1,
                        old_links.len() as int,
                    ));
                }
            } else {
                proof {
                    assert(links_without(post, iid) =~= links_without(pre, iid).push(
                        old_links[ip],
                    ));
                    assert(self.instance_tags@ =~= links_without(post, iid) + old_links.subrange(
                        ip + 1,
                        old_links.len() as int,
                    ));
                }
                i = i + 1;
            }
            proof {
                ip = ip + 1;
            }
        }
        proof {
            assert(old_links.subrange(0, old_links.len() as int) =~= old_links);
            assert(old_links.subrange(ip, old_links.len() as int) =~= Seq::<
                InstanceTagRow,
            >::empty());
            assert(self.instance_tags@ =~= links_without(old_links, iid));
        }
        // delete the solutions of the instance
        let mut j: usize = 0;
        let ghost mut jp: int = 0;
        proof {
            assert(sols_without(old_sols.subrange(0, 0), iid) =~= Seq::<SolutionRow>::empty());
            assert(sols_without(old_sols.subrange(0, 0), iid) + old_sols.subrange(
                0,
                old_sols.len() as int,
            ) =~= old_sols);
        }
        while j < self.solutions.len()
            invariant
                0 <= j <= self.solutions@.len(),
                0 <= jp <= old_sols.len(),
                j == sols_without(old_sols.subrange(0, jp), iid).len(),
                self.solutions@ == sols_without(old_sols.subrange(0, jp), iid)
                    + old_sols.subrange(jp, old_sols.len() as int),
                self.instance_tags@ == links_without(old_links, iid),
                same_state_except_links_sols(*self, *old(self)),
            decreases old_sols.len() - jp,
        {
            let ghost pre = old_sols.subrange(0, jp);
            let ghost post = old_sols.subrange(0, jp + 1);
            proof {
                assert(post.drop_last() =~= pre);
                assert(post.last() == old_sols[jp]);
                assert(self.solutions@[j as int] == old_sols[jp]);
            }
            if self.solutions[j].instance_iid == iid {
                self.solutions.remove(j);
                proof {
                    assert(self.solutions@ =~= sols_without(post, iid) + old_sols.subrange(
                        jp + 1,
                        old_sols.len() as int,
                    ));
                }
            } else {
                proof {
                    assert(sols_without(post, iid) =~= sols_without(pre, iid).push(old_sols[jp]));
                    assert(self.solutions@ =~= sols_without(post, iid) + old_sols.subrange(
                        jp + 1,
                        old_sols.len() as int,
                    ));
                }
                j = j + 1;
            }
            proof {
                jp = jp + 1;
            }
        }
        proof {
            assert(old_sols.subrange(0, old_sols.len() as int) =~= old_sols);
            assert(old_sols.subrange(jp, old_sols.len() as int) =~= Seq::<SolutionRow>::empty());
            assert(self.solutions@ =~= sols_without(old_sols, iid));
        }
        let ghost kept_sols = self.solutions@;
        // garbage-collect orphaned solution payloads
        let mut k: usize = 0;
        let ghost mut kp: int = 0;
        proof {
            assert(live_sol_data(old_sdata.subrange(0, 0), kept_sols) =~= Seq::<
                SolutionDataRow,
            >::empty());
            assert(live_sol_data(old_sdata.subrange(0, 0), kept_sols) + old_sdata.subrange(
                0,
                old_sdata.len() as int,
            ) =~= old_sdata);
        }
        while k < self.solution_data.len()
            invariant
                0 <= k <= self.solution_data@.len(),
                0 <= kp <= old_sdata.len(),
                k == live_sol_data(old_sdata.subrange(0, kp), kept_sols).len(),
                self.solution_data@ == live_sol_data(old_sdata.subrange(0, kp), kept_sols)
                    + old_sdata.subrange(kp, old_sdata.len() as int),
                self.solutions@ == kept_sols,
                kept_sols == sols_without(old_sols, iid),
                self.instance_tags@ == links_without(old_links, iid),
                same_state_except_links_sols_sdata(*self, *old(self)),
            decreases old_sdata.len() - kp,
        {
            let ghost pre = old_sdata.subrange(0, kp);
            let ghost post = old_sdata.subrange(0, kp + 1);
            proof {
                assert(post.drop_last() =~= pre);
                assert(post.last() == old_sdata[kp]);
                assert(self.solution_data@[k as int] == old_sdata[kp]);
            }
            let referenced = sol_hash_used(&self.solutions, &self.solution_data[k].hash);
            if !referenced {
                self.solution_data.remove(k);
                proof {
                    assert(self.solution_data@ =~= live_sol_data(post, kept_sols)
                        + old_sdata.subrange(kp + 1, old_sdata.len() as int));
                }
            } else {
                proof {
                    assert(live_sol_data(post, kept_sols) =~= live_sol_data(pre, kept_sols).push(
                        old_sdata[kp],
                    ));
                    assert(self.solution_data@ =~= live_sol_data(post, kept_sols)
                        + old_sdata.subrange(kp + 1, old_sdata.len() as int));
                }
                k = k + 1;
            }
            proof {
                kp = kp + 1;
            }
        }
        proof {
            assert(old_sdata.subrange(0, old_sdata.len() as int) =~= old_sdata);
            assert(old_sdata.subrange(kp, old_sdata.len() as int) =~= Seq::<
                SolutionDataRow,
            >::empty());
            assert(self.solution_data@ =~= live_sol_data(old_sdata, kept_sols));
        }
        // delete the instance row itself
        let mut m: usize = 0;
        let ghost mut mp: int = 0;
        proof {
            assert(insts_without(old_insts.subrange(0, 0), iid) =~= Seq::<InstanceRow>::empty());
            assert(insts_without(old_insts.subrange(0, 0), iid) + old_insts.subrange(
                0,
                old_insts.len() as int,
            ) =~= old_insts);
        }
        while m < self.instances.len()
            invariant
                0 <= m <= self.instances@.len(),
                0 <= mp <= old_insts.len(),
                m == insts_without(old_insts.subrange(0, mp), iid).len(),
                self.instances@ == insts_without(old_insts.subrange(0, mp), iid)
                    + old_insts.subrange(mp, old_insts.len() as int),
                self.solutions@ == kept_sols,
                self.solution_data@ == live_sol_data(old_sdata, kept_sols),
                self.instance_tags@ == links_without(old_links, iid),
                same_state_except_most(*self, *old(self)),
            decreases old_insts.len() - mp,
        {
            let ghost pre = old_insts.subrange(0, mp);
            let ghost post = old_insts.subrange(0, mp + 1);
            proof {
                assert(post.drop_last() =~= pre);
                assert(post.last() == old_insts[mp]);
                assert(self.instances@[m as int] == old_insts[mp]);
            }
            if self.instances[m].iid == iid {
                self.instances.remove(m);
                proof {
                    assert(self.instances@ =~= insts_without(post, iid) + old_insts.subrange(
                        mp + 1,
                        old_insts.len() as int,
                    ));
                }
            } else {
                proof {
                    assert(insts_without(post, iid) =~= insts_without(pre, iid).push(
                        old_insts[mp],
                    ));
                    assert(self.instances@ =~= insts_without(post, iid) + old_insts.subrange(
                        mp + 1,
                        old_insts.len() as int,
                    ));
                }
                m = m + 1;
            }
            proof {
                mp = mp + 1;
            }
        }
        proof {
            assert(old_insts.subrange(0, old_insts.len() as int) =~= old_insts);
            assert(old_insts.subrange(mp, old_insts.len() as int) =~= Seq::<InstanceRow>::empty());
            assert(self.instances@ =~= insts_without(old_insts, iid));
        }
        let ghost kept_insts = self.instances@;
        // garbage-collect the instance payload if it became orphaned
        let mut p: usize = 0;
        let ghost mut pp: int = 0;
        proof {
            assert(live_inst_data(old_idata.subrange(0, 0), kept_insts) =~= Seq::<
                InstanceDataRow,
            >::empty());
            assert(live_inst_data(old_idata.subrange(0, 0), kept_insts) + old_idata.subrange(
                0,
                old_idata.len() as int,
            ) =~= old_idata);
        }
        while p < self.instance_data.len()
            invariant
                0 <= p <= self.instance_data@.len(),
                0 <= pp <= old_idata.len(),
                p == live_inst_data(old_idata.subrange(0, pp), kept_insts).len(),
                self.instance_data@ == live_inst_data(old_idata.subrange(0, pp), kept_insts)
                    + old_idata.subrange(pp, old_idata.len() as int),
                self.instances@ == kept_insts,
                kept_insts == insts_without(old_insts, iid),
                self.solutions@ == kept_sols,
                kept_sols == sols_without(old_sols, iid),
                self.solution_data@ == live_sol_data(old_sdata, kept_sols),
                self.instance_tags@ == links_without(old_links, iid),
                same_state_counters(*self, *old(self)),
            decreases old_idata.len() - pp,
        {
            let ghost pre = old_idata.subrange(0, pp);
            let ghost post = old_idata.subrange(0, pp + 1);
            proof {
                assert(post.drop_last() =~= pre);
                assert(post.last() == old_idata[pp]);
                assert(self.instance_data@[p as int] == old_idata[pp]);
            }
            let referenced = did_used(&self.instances, self.instance_data[p].did);
            if !referenced {
                self.instance_data.remove(p);
                proof {
                    assert(self.instance_data@ =~= live_inst_data(post, kept_insts)
                        + old_idata.subrange(pp + 1, old_idata.len() as int));
                }
            } else {
                proof {
                    assert(live_inst_data(post, kept_insts) =~= live_inst_data(pre, kept_insts).push(
                        old_idata[pp],
                    ));
                    assert(self.instance_data@ =~= live_inst_data(post, kept_insts)
                        + old_idata.subrange(pp + 1, old_idata.len() as int));
                }
                p = p + 1;
            }
            proof {
                pp = pp + 1;
            }
        }
        proof {
            assert(old_idata.subrange(0, old_idata.len() as int) =~= old_idata);
            assert(old_idata.subrange(pp, old_idata.len() as int) =~= Seq::<
                InstanceDataRow,
            >::empty());
            assert(self.instance_data@ =~= live_inst_data(old_idata, kept_insts));
        }
        proof {
            lemma_insts_without_props(old_insts, iid);
            lemma_sols_without_props(old_sols, iid);
            lemma_links_without_props(old_links, iid);
            lemma_live_sol_data_props(old_sdata, kept_sols);
            lemma_live_inst_data_props(old_idata, kept_insts);
            let insts = self.instances@;
            let sols = self.solutions@;
            let sdata = self.solution_data@;
            let idata = self.instance_data@;
            assert forall|a: int, b: int| 0 <= a < b < insts.len() implies (
            #[trigger] insts[a]).iid != (#[trigger] insts[b]).iid by {
                assert(unique_iids(insts));
            }
            // every reference still resolves and every payload is still live
            assert forall|a: int| 0 <= a < insts.len() implies has_did(
                idata,
                (#[trigger] insts[a]).data_did,
            ) by {
                assert(insts.contains(insts[a])) by {
                    assert(insts[a] == insts[a]);
                }
                assert(old_insts.contains(insts[a]));
                let w = choose|w: int|
                    0 <= w < old_idata.len() && (#[trigger] old_idata[w]).did == insts[a].data_did;
                assert(old_idata.contains(old_idata[w])) by {
                    assert(old_idata[w] == old_idata[w]);
                }
                assert(data_referenced(kept_insts, old_idata[w].did)) by {
                    let ai = choose|ai: int| 0 <= ai < insts.len() && insts[ai] == insts[a];
                    assert(insts[ai].data_did == old_idata[w].did);
                }
                assert(idata.contains(old_idata[w]));
                let w2 = choose|w2: int| 0 <= w2 < idata.len() && idata[w2] == old_idata[w];
            }
            assert forall|a: int| 0 <= a < idata.len() implies data_referenced(
                insts,
                (#[trigger] idata[a]).did,
            ) by {
                assert(idata.contains(idata[a])) by {
                    assert(idata[a] == idata[a]);
                }
            }
            assert forall|a: int| 0 <= a < sols.len() implies has_instance(
                insts,
                (#[trigger] sols[a]).instance_iid,
            ) by {
                assert(sols.contains(sols[a])) by {
                    assert(sols[a] == sols[a]);
                }
                assert(old_sols.contains(sols[a]));
                let w = choose|w: int|
                    0 <= w < old_insts.len() && (#[trigger] old_insts[w]).iid
                        == sols[a].instance_iid;
                assert(old_insts.contains(old_insts[w])) by {
                    assert(old_insts[w] == old_insts[w]);
                }
                assert(insts.contains(old_insts[w]));
                let w2 = choose|w2: int| 0 <= w2 < insts.len() && insts[w2] == old_insts[w];
            }
            assert forall|a: int|
                0 <= a < sols.len() && (#[trigger] sols[a]).solution_hash is Some implies
                has_sol_data(sdata, sol_hash_view(sols[a])->Some_0) by {
                assert(sols.contains(sols[a])) by {
                    assert(sols[a] == sols[a]);
                }
                assert(old_sols.contains(sols[a]));
                let w = choose|w: int|
                    0 <= w < old_sdata.len() && (#[trigger] old_sdata[w]).hash@ == sol_hash_view(
                        sols[a],
                    )->Some_0;
                assert(old_sdata.contains(old_sdata[w])) by {
                    assert(old_sdata[w] == old_sdata[w]);
                }
                assert(sol_hash_referenced(kept_sols, old_sdata[w].hash@)) by {
                    let ai = choose|ai: int| 0 <= ai < sols.len() && sols[ai] == sols[a];
                    assert(sol_hash_view(sols[ai]) == Some(old_sdata[w].hash@));
                }
                assert(sdata.contains(old_sdata[w]));
                let w2 = choose|w2: int| 0 <= w2 < sdata.len() && sdata[w2] == old_sdata[w];
            }
            assert forall|a: int| 0 <= a < sols.len() implies has_run(
                self.solver_runs@,
                (#[trigger] sols[a]).sr_uuid,
            ) by {
                assert(sols.contains(sols[a])) by {
                    assert(sols[a] == sols[a]);
                }
                assert(old_sols.contains(sols[a]));
                let w = choose|w: int|
                    0 <= w < old_sols.len() && (#[trigger] old_sols[w]) == sols[a];
                assert(has_run(self.solver_runs@, old_sols[w].sr_uuid));
            }
            assert forall|a: int| 0 <= a < sdata.len() implies sol_hash_referenced(
                sols,
                (#[trigger] sdata[a]).hash@,
            ) by {
                assert(sdata.contains(sdata[a])) by {
                    assert(sdata[a] == sdata[a]);
                }
            }
            // terminal-state rule and counters carry over through membership
            assert forall|a: int| 0 <= a < sols.len() implies ((#[trigger] sols[a]).error_code
                == SolverResultType::Valid <==> sols[a].solution_hash is Some) && (sols[a].error_code
                == SolverResultType::Valid <==> sols[a].score is Some) && sols[a].sid
                < self.next_sid by {
                assert(sols.contains(sols[a])) by {
                    assert(sols[a] == sols[a]);
                }
                assert(old_sols.contains(sols[a]));
                let w = choose|w: int| 0 <= w < old_sols.len() && (#[trigger] old_sols[w]) == sols[a];
            }
            assert forall|a: int| 0 <= a < insts.len() implies (#[trigger] insts[a]).iid
                < self.next_iid by {
                assert(insts.contains(insts[a])) by {
                    assert(insts[a] == insts[a]);
                }
                assert(old_insts.contains(insts[a]));
                let w = choose|w: int|
                    0 <= w < old_insts.len() && (#[trigger] old_insts[w]) == insts[a];
            }
            assert forall|a: int| 0 <= a < idata.len() implies (#[trigger] idata[a]).did
                < self.next_did by {
                assert(idata.contains(idata[a])) by {
                    assert(idata[a] == idata[a]);
                }
                assert(old_idata.contains(idata[a]));
                let w = choose|w: int|
                    0 <= w < old_idata.len() && (#[trigger] old_idata[w]) == idata[a];
            }
            // best scores are untouched for the surviving instances
            assert forall|a: int| 0 <= a < insts.len() implies (#[trigger] insts[a]).best_score
                == min_valid_score(sols, insts[a].iid) by {
                assert(insts.contains(insts[a])) by {
                    assert(insts[a] == insts[a]);
                }
                assert(old_insts.contains(insts[a]));
                let w = choose|w: int|
                    0 <= w < old_insts.len() && (#[trigger] old_insts[w]) == insts[a];
                lemma_min_score_after_delete(old_sols, iid, insts[a].iid);
            }
        }
        Ok(())
    }
}

/// The outcome a solver reports for one instance: a proposed set, a
/// reference to an already uploaded set, or a typed negative result.
pub enum SolverResult {
    Valid { data: Vec<crate::graph::Node> },
    ValidCached { hash: Vec<u8> },
    Infeasible,
    SyntaxError,
    Timeout,
    NonCompetitive,
    IncompleteOutput,
    Empty,
}

impl SolverResult {
    pub open spec fn result_type_spec(&self) -> Option<SolverResultType> {
        match self {
            SolverResult::Valid { .. } => Option::Some(SolverResultType::Valid),
            SolverResult::ValidCached { .. } => Option::Some(SolverResultType::Valid),
            SolverResult::Infeasible => Option::Some(SolverResultType::Infeasible),
            SolverResult::SyntaxError => Option::Some(SolverResultType::SyntaxError),
            SolverResult::Timeout => Option::Some(SolverResultType::Timeout),
            SolverResult::NonCompetitive => Option::Some(SolverResultType::NonCompetitive),
            SolverResult::IncompleteOutput => Option::Some(SolverResultType::IncompleteOutput),
            SolverResult::Empty => Option::None,
        }
    }

    /// The stored outcome kind of this result, `None` for the internal
    /// placeholder.
    pub fn result_type(&self) -> (r: Option<SolverResultType>)
        ensures
            r == self.result_type_spec(),
    {
        match self {
            SolverResult::Valid { .. } => Some(SolverResultType::Valid),
            SolverResult::ValidCached { .. } => Some(SolverResultType::Valid),
            SolverResult::Infeasible => Some(SolverResultType::Infeasible),
            SolverResult::SyntaxError => Some(SolverResultType::SyntaxError),
            SolverResult::Timeout => Some(SolverResultType::Timeout),
            SolverResult::NonCompetitive => Some(SolverResultType::NonCompetitive),
            SolverResult::IncompleteOutput => Some(SolverResultType::IncompleteOutput),
            SolverResult::Empty => None,
        }
    }
}

/// A request to record one solver result.
pub struct SolutionUploadRequest {
    pub instance_id: u32,
    pub run_uuid: u128,
    pub solver_uuid: Option<u128>,
    pub seconds_computed: Option<u64>,
    pub result: SolverResult,
    pub dry_run: bool,
}

/// What a solution upload reports back.
#[derive(Debug)]
pub struct SolutionUploadResponse {
    pub solution_hash: Option<Vec<u8>>,
    pub score: Option<u32>,
}

/// When a solution upload succeeds: the result kind is real, the
/// `(run, instance)` pair is new, the instance exists, and the kind's own
/// condition holds — a proposed set must be in range and dominate, a
/// cached hash must already be referenced, a negative outcome needs
/// nothing more.
pub open spec fn upload_accepted(st: Store, req: SolutionUploadRequest) -> bool {
    &&& !(req.result is Empty)
    &&& !has_run_pair(st.solutions@, req.run_uuid, req.instance_id)
    &&& has_instance(st.instances@, req.instance_id)
    &&& (match req.result {
        SolverResult::Valid { data } => {
            &&& instance_model(st, req.instance_id) is Some
            &&& (forall|k: int|
                0 <= k < data@.len() ==> 1 <= #[trigger] data@[k] && data@[k] <= instance_model(
                    st,
                    req.instance_id,
                )->Some_0.0)
            &&& crate::solution::dominates(
                instance_model(st, req.instance_id)->Some_0.1,
                crate::solution::dec1_all(data@),
                instance_model(st, req.instance_id)->Some_0.0,
            )
        },
        SolverResult::ValidCached { hash } => sol_hash_referenced(st.solutions@, hash@),
        _ => true,
    })
}

/// What a solution upload reports back, per result kind: the digest and
/// distinct-set score of a proposed set, the cached hash and its recorded
/// score, nothing for a negative outcome. Dry runs report the same.
pub open spec fn upload_response_ok(st: Store, req: SolutionUploadRequest, resp: SolutionUploadResponse) -> bool {
    match req.result {
        SolverResult::Valid { data } => {
            &&& opt_bytes_view(resp.solution_hash) == Some(
                crate::solution::solution_digest(crate::solution::dec1_all(data@)),
            )
            &&& resp.score == Some(
                crate::solution::sorted_nodes_of(
                    crate::solution::dec1_all(data@).to_set(),
                ).len() as u32,
            )
        },
        SolverResult::ValidCached { hash } => {
            &&& opt_bytes_view(resp.solution_hash) == Some(hash@)
            &&& (exists|i: int|
                0 <= i < st.solutions@.len() && sol_hash_view(#[trigger] st.solutions@[i]) == Some(
                    hash@,
                ) && resp.score == st.solutions@[i].score)
        },
        _ => resp.solution_hash is None && resp.score is None,
    }
}

/// Every parsed edge in `(min, max)` order.
pub open spec fn norm_all(s: Seq<crate::graph::Edge>) -> Seq<crate::graph::Edge> {
    Seq::new(s.len(), |i: int| crate::graph::norm_edge(s[i]))
}

/// The JSON array text of a node list: the stored solution payload form.
pub open spec fn json_rest(s: Seq<u32>) -> Seq<u8>
    decreases s.len(),
{
    if s.len() == 0 {
        seq![]
    } else {
        seq![44u8] + crate::text::dec_repr(s[0] as nat) + json_rest(s.drop_first())
    }
}

pub open spec fn json_u32_list(s: Seq<u32>) -> Seq<u8> {
    if s.len() == 0 {
        seq![91u8, 93u8]
    } else {
        seq![91u8] + crate::text::dec_repr(s[0] as nat) + json_rest(s.drop_first()) + seq![93u8]
    }
}

/// Writes a node list as a JSON array of numbers.
pub fn json_u32_list_exec(s: &Vec<u32>) -> (r: Vec<u8>)
    ensures
        r@ == json_u32_list(s@),
{
    let mut out: Vec<u8> = Vec::new();
    out.push(91);
    if s.len() > 0 {
        let d = crate::text::u64_to_dec(s[0] as u64);
        out.extend_from_slice(d.as_slice());
        proof {
            assert(out@ =~= seq![91u8] + crate::text::dec_repr(s@[0] as nat) + json_rest(
                s@.subrange(1, 1),
            ));
        }
        let mut i: usize = 1;
        while i < s.len()
            invariant
                1 <= i <= s@.len(),
                out@ == seq![91u8] + crate::text::dec_repr(s@[0] as nat) + json_rest(
                    s@.subrange(1, i as int),
                ),
            decreases s@.len() - i,
        {
            out.push(44);
            let d2 = crate::text::u64_to_dec(s[i] as u64);
            out.extend_from_slice(d2.as_slice());
            proof {
                lemma_json_rest_push(s@.subrange(1, i as int), s@[i as int]);
                assert(s@.subrange(1, i as int + 1) =~= s@.subrange(1, i as int).push(
                    s@[i as int],
                ));
                assert(out@ =~= seq![91u8] + crate::text::dec_repr(s@[0] as nat) + json_rest(
                    s@.subrange(1, i as int + 1),
                ));
            }
            i = i + 1;
        }
        proof {
            assert(s@.subrange(1, i as int) =~= s@.drop_first());
        }
        out.push(93);
        proof {
            assert(out@ =~= json_u32_list(s@));
        }
    } else {
        out.push(93);
        proof {
            assert(out@ =~= json_u32_list(s@));
        }
    }
    out
}

proof fn lemma_json_rest_push(s: Seq<u32>, x: u32)
    ensures
        json_rest(s.push(x)) == json_rest(s) + seq![44u8] + crate::text::dec_repr(x as nat),
    decreases s.len(),
{
    if s.len() == 0 {
        assert(s.push(x)[0] == x);
        assert(s.push(x).drop_first() =~= Seq::<u32>::empty());
        assert(json_rest(s.push(x)) == seq![44u8] + crate::text::dec_repr(x as nat) + json_rest(
            Seq::<u32>::empty(),
        ));
        assert(json_rest(Seq::<u32>::empty()) == Seq::<u8>::empty());
        assert(seq![44u8] + crate::text::dec_repr(x as nat) + Seq::<u8>::empty() =~= seq![44u8]
            + crate::text::dec_repr(x as nat));
        assert(json_rest(s) + seq![44u8] + crate::text::dec_repr(x as nat) =~= seq![44u8]
            + crate::text::dec_repr(x as nat));
    } else {
        lemma_json_rest_push(s.drop_first(), x);
        assert(s.push(x).drop_first() =~= s.drop_first().push(x));
        assert(s.push(x)[0] == s[0]);
        assert(seq![44u8] + crate::text::dec_repr(s[0] as nat) + (json_rest(s.drop_first())
            + seq![44u8] + crate::text::dec_repr(x as nat)) =~= (seq![44u8] + crate::text::dec_repr(
            s[0] as nat,
        ) + json_rest(s.drop_first())) + seq![44u8] + crate::text::dec_repr(x as nat));
    }
}

/// Appending a solution row updates exactly the minimum of its instance.
proof fn lemma_min_score_push(s: Seq<SolutionRow>, r: SolutionRow, iid: u32)
    ensures
        r.instance_iid == iid && r.error_code == SolverResultType::Valid ==> min_valid_score(
            s.push(r),
            iid,
        ) == opt_min(min_valid_score(s, iid), r.score),
        r.instance_iid != iid || r.error_code != SolverResultType::Valid ==> min_valid_score(
            s.push(r),
            iid,
        ) == min_valid_score(s, iid),
{
    assert(s.push(r).drop_last() =~= s);
    assert(s.push(r).last() == r);
}

/// Index of the instance row with a given id, where one exists.
pub open spec fn inst_ix(st: Store, iid: u32) -> int {
    choose|i: int| 0 <= i < st.instances@.len() && (#[trigger] st.instances@[i]).iid == iid
}

/// Index of the payload row with a given id, where one exists.
pub open spec fn data_ix(st: Store, did: u32) -> int {
    choose|j: int| 0 <= j < st.instance_data@.len() && (#[trigger] st.instance_data@[j]).did == did
}

/// What the stored document of an instance decodes to: its node count and
/// its normalized edge list, or nothing when the payload does not parse
/// back or disagrees with the recorded node count.
pub open spec fn instance_model(st: Store, iid: u32) -> Option<(u32, Seq<crate::graph::Edge>)> {
    let row = st.instances@[inst_ix(st, iid)];
    let payload = st.instance_data@[data_ix(st, row.data_did)].data@;
    match crate::instance_reader::parse_instance(payload) {
        Option::Some((id, n2, m2, raw)) => if n2 == row.nodes {
            Option::Some((row.nodes, norm_all(raw)))
        } else {
            Option::None
        },
        Option::None => Option::None,
    }
}

impl Store {
    /// Index of some solution row carrying a given payload hash.
    pub fn find_solution_by_hash(&self, h: &Vec<u8>) -> (r: Option<usize>)
        ensures
            r matches Some(i) ==> i < self.solutions@.len() && sol_hash_view(
                self.solutions@[i as int],
            ) == Some(h@),
            r is Some <==> sol_hash_referenced(self.solutions@, h@),
    {
        let mut i: usize = 0;
        while i < self.solutions.len()
            invariant
                0 <= i <= self.solutions@.len(),
                forall|k: int| 0 <= k < i ==> sol_hash_view(#[trigger] self.solutions@[k]) != Some(
                    h@,
                ),
            decreases self.solutions@.len() - i,
        {
            match &self.solutions[i].solution_hash {
                Some(sh) => {
                    if bytes_eq(sh, h) {
                        proof {
                            assert(sol_hash_view(self.solutions@[i as int]) == Some(h@));
                        }
                        return Some(i);
                    }
                },
                None => {},
            }
            i = i + 1;
        }
        proof {
            if sol_hash_referenced(self.solutions@, h@) {
                let k = choose|k: int|
                    0 <= k < self.solutions@.len() && sol_hash_view(#[trigger] self.solutions@[k])
                        == Some(h@);
            }
        }
        None
    }

    /// Whether a `(run, instance)` pair already has a result.
    pub fn has_pair(&self, run_uuid: u128, iid: u32) -> (r: bool)
        ensures
            r == has_run_pair(self.solutions@, run_uuid, iid),
    {
        let mut i: usize = 0;
        while i < self.solutions.len()
            invariant
                0 <= i <= self.solutions@.len(),
                forall|k: int|
                    0 <= k < i ==> !((#[trigger] self.solutions@[k]).sr_uuid == run_uuid
                        && self.solutions@[k].instance_iid == iid),
            decreases self.solutions@.len() - i,
        {
            if self.solutions[i].sr_uuid == run_uuid && self.solutions[i].instance_iid == iid {
                return true;
            }
            i = i + 1;
        }
        proof {
            if has_run_pair(self.solutions@, run_uuid, iid) {
                let k = choose|k: int|
                    0 <= k < self.solutions@.len() && (#[trigger] self.solutions@[k]).sr_uuid
                        == run_uuid && self.solutions@[k].instance_iid == iid;
            }
        }
        false
    }

    /// Reads the stored canonical document of an instance back into its
    /// node count and normalized edge list.
    pub fn read_instance_data(&self, instance_id: u32) -> (r: Result<
        (crate::graph::NumNodes, Vec<crate::graph::Edge>),
        CoreError,
    >)
        requires
            self.wf(),
        ensures
            r matches Err(e) ==> e.kind == ErrorKind::NotFound || e.kind == ErrorKind::Integrity,
            r matches Err(e) && e.kind == ErrorKind::NotFound ==> !has_instance(
                self.instances@,
                instance_id,
            ),
            r matches Ok((n, edges)) ==> has_instance(self.instances@, instance_id)
                && instance_model(*self, instance_id) == Some((n, edges@)) && (forall|k: int|
                0 <= k < edges@.len() ==> (#[trigger] edges@[k]).0 < n && edges@[k].1 < n),
            has_instance(self.instances@, instance_id) && instance_model(*self, instance_id)
                is Some ==> r is Ok,
    {
        let idx = match self.find_instance(instance_id) {
            Some(i) => i,
            None => {
                return Err(CoreError::new(ErrorKind::NotFound, "no such instance"));
            },
        };
        let didx = match self.find_instance_data(self.instances[idx].data_did) {
            Some(j) => j,
            None => {
                proof {
                    assert(has_did(self.instance_data@, self.instances@[idx as int].data_did));
                    assert(false);
                }
                return Err(CoreError::new(ErrorKind::Integrity, "missing instance data"));
            },
        };
        proof {
            let i0 = inst_ix(*self, instance_id);
            assert(0 <= i0 < self.instances@.len() && self.instances@[i0].iid == instance_id) by {
                assert(self.instances@[idx as int].iid == instance_id);
            }
            if i0 != idx as int {
                assert(self.instances@[i0].iid != self.instances@[idx as int].iid);
            }
            assert(inst_ix(*self, instance_id) == idx as int);
            let j0 = data_ix(*self, self.instances@[idx as int].data_did);
            assert(0 <= j0 < self.instance_data@.len() && self.instance_data@[j0].did
                == self.instances@[idx as int].data_did) by {
                assert(self.instance_data@[didx as int].did
                    == self.instances@[idx as int].data_did);
            }
            if j0 != didx as int {
                assert(self.instance_data@[j0].did != self.instance_data@[didx as int].did);
            }
            assert(data_ix(*self, self.instances@[idx as int].data_did) == didx as int);
        }
        let mut reader = match crate::instance_reader::PaceReader::try_new(
            self.instance_data[didx].data.as_slice(),
        ) {
            Ok(rd) => rd,
            Err(_) => {
                proof {
                    assert(instance_model(*self, instance_id) is None);
                }
                return Err(CoreError::new(ErrorKind::Integrity, "stored instance data corrupt"));
            },
        };
        if reader.number_of_nodes() != self.instances[idx].nodes {
            proof {
                assert(instance_model(*self, instance_id) is None);
            }
            return Err(CoreError::new(ErrorKind::Integrity, "instance node count mismatch"));
        }
        let ghost gdata = self.instance_data@[didx as int].data@;
        let ghost r0 = reader.rest();
        let ghost n = reader.n_spec();
        let mut edges: Vec<crate::graph::Edge> = Vec::new();
        let ghost mut graw: Seq<crate::graph::Edge> = Seq::<crate::graph::Edge>::empty();
        proof {
            if crate::instance_reader::parse_edges(r0, n) is Some {
                let s = crate::instance_reader::parse_edges(r0, n)->Some_0;
                assert(graw + s =~= s);
            }
            assert(edges@ =~= norm_all(graw));
        }
        loop
            invariant
                reader.wf(),
                reader.n_spec() == n,
                gdata == self.instance_data@[didx as int].data@,
                0 <= idx < self.instances@.len(),
                0 <= didx < self.instance_data@.len(),
                inst_ix(*self, instance_id) == idx as int,
                self.instances@[idx as int].iid == instance_id,
                data_ix(*self, self.instances@[idx as int].data_did) == didx as int,
                n == self.instances@[idx as int].nodes,
                crate::instance_reader::header_of(gdata) == Some(
                    (reader.id_spec(), n, reader.m_spec()),
                ),
                r0 == crate::instance_reader::body_lines(gdata),
                crate::instance_reader::parse_edges(r0, n) == (
                match crate::instance_reader::parse_edges(reader.rest(), n) {
                    Option::Some(s) => Option::Some(graw + s),
                    Option::None => Option::None::<Seq<crate::graph::Edge>>,
                }),
                edges@ == norm_all(graw),
                forall|k: int|
                    0 <= k < edges@.len() ==> (#[trigger] edges@[k]).0 < n && edges@[k].1 < n,
            ensures
                crate::instance_reader::parse_edges(r0, n) == Some(graw),
                edges@ == norm_all(graw),
                forall|k: int|
                    0 <= k < edges@.len() ==> (#[trigger] edges@[k]).0 < n && edges@[k].1 < n,
            decreases reader.rest().len() + 1,
        {
            match reader.next_edge() {
                Err(_) => {
                    proof {
                        assert(crate::instance_reader::parse_instance(gdata) is None);
                        assert(instance_model(*self, instance_id) is None);
                    }
                    return Err(
                        CoreError::new(ErrorKind::Integrity, "stored instance data corrupt"),
                    );
                },
                Ok(None) => {
                    proof {
                        assert(graw + Seq::<crate::graph::Edge>::empty() =~= graw);
                    }
                    break ;
                },
                Ok(Some(e)) => {
                    let ghost prev = graw;
                    proof {
                        graw = graw.push(e);
                        assert forall|s: Seq<crate::graph::Edge>| true implies prev + (seq![e] + s)
                            =~= graw + s by {
                            assert(prev + (seq![e] + s) =~= prev.push(e) + s);
                        }
                    }
                    edges.push(e.normalized());
                    proof {
                        assert(edges@ =~= norm_all(graw));
                    }
                },
            }
        }
        let nodes = self.instances[idx].nodes;
        proof {
            assert(crate::instance_reader::parse_instance(gdata) == Some(
                (reader.id_spec(), n, reader.m_spec(), graw),
            ));
            assert(instance_model(*self, instance_id) == Some((nodes, norm_all(graw))));
        }
        Ok((nodes, edges))
    }
}

/// Each entry of a strictly increasing id list is at least its index.
proof fn lemma_si_ge(s: Seq<u32>, i: int)
    requires
        crate::solution::strictly_increasing(s),
        0 <= i < s.len(),
    ensures
        s[i] >= i,
    decreases i,
{
    if i > 0 {
        lemma_si_ge(s, i - 1);
        assert(s[i - 1] < s[i]);
    }
}

/// A strictly increasing list of ids below `n` has at most `n` entries.
proof fn lemma_strictly_increasing_len(s: Seq<u32>, n: u32)
    requires
        crate::solution::strictly_increasing(s),
        forall|k: int| 0 <= k < s.len() ==> #[trigger] s[k] < n,
    ensures
        s.len() <= n,
{
    if s.len() > 0 {
        lemma_si_ge(s, s.len() - 1);
    }
}

/// The instance row with its best score replaced.
pub open spec fn set_best(row: InstanceRow, b: Option<u32>) -> InstanceRow {
    InstanceRow { best_score: b, ..row }
}

impl Store {
    /// Index of the solver run with a given uuid.
    fn find_run(&self, run_uuid: u128) -> (r: Option<usize>)
        ensures
            r matches Some(i) ==> i < self.solver_runs@.len()
                && self.solver_runs@[i as int].run_uuid == run_uuid,
            r is Some <==> has_run(self.solver_runs@, run_uuid),
    {
        let mut i: usize = 0;
        while i < self.solver_runs.len()
            invariant
                0 <= i <= self.solver_runs@.len(),
                forall|k: int| 0 <= k < i ==> (#[trigger] self.solver_runs@[k]).run_uuid != run_uuid,
            decreases self.solver_runs@.len() - i,
        {
            if self.solver_runs[i].run_uuid == run_uuid {
                return Some(i);
            }
            i = i + 1;
        }
        proof {
            if has_run(self.solver_runs@, run_uuid) {
                let k = choose|k: int|
                    0 <= k < self.solver_runs@.len() && (#[trigger] self.solver_runs@[k]).run_uuid
                        == run_uuid;
            }
        }
        None
    }

    /// Records the solver run if this is its first solution upload.
    fn upsert_solver_run(&mut self, run_uuid: u128, solver_uuid: Option<u128>, now: u64)
        requires
            unique_run_uuids(old(self).solver_runs@),
            forall|i: int|
                0 <= i < old(self).solver_runs@.len() ==> (#[trigger] old(self).solver_runs@[i]).sr_id < old(self).next_sr_id,
            old(self).next_sr_id < u32::MAX,
        ensures
            unique_run_uuids(final(self).solver_runs@),
            forall|i: int|
                0 <= i < final(self).solver_runs@.len() ==> (#[trigger] final(self).solver_runs@[i]).sr_id < final(self).next_sr_id,
            has_run(final(self).solver_runs@, run_uuid),
            has_run(old(self).solver_runs@, run_uuid) ==> final(self).solver_runs == old(self).solver_runs && final(self).next_sr_id == old(self).next_sr_id,
            !has_run(old(self).solver_runs@, run_uuid) ==> {
                &&& final(self).solver_runs@.len() == old(self).solver_runs@.len() + 1
                &&& final(self).solver_runs@.subrange(0, old(self).solver_runs@.len() as int)
                    == old(self).solver_runs@
                &&& final(self).solver_runs@.last().run_uuid == run_uuid
                &&& final(self).solver_runs@.last().solver_uuid == solver_uuid
                &&& final(self).solver_runs@.last().sr_id == old(self).next_sr_id
                &&& final(self).solver_runs@.last().hide == false
                &&& final(self).solver_runs@.last().created_at == now
                &&& final(self).next_sr_id == old(self).next_sr_id + 1
            },
            forall|u: u128|
                #[trigger] has_run(final(self).solver_runs@, u) <==> has_run(
                    old(self).solver_runs@,
                    u,
                ) || u == run_uuid,
            final(self).instances == old(self).instances,
            final(self).instance_data == old(self).instance_data,
            final(self).solutions == old(self).solutions,
            final(self).solution_data == old(self).solution_data,
            final(self).tags == old(self).tags,
            final(self).instance_tags == old(self).instance_tags,
            final(self).next_iid == old(self).next_iid,
            final(self).next_did == old(self).next_did,
            final(self).next_sid == old(self).next_sid,
            final(self).next_tid == old(self).next_tid,
    {
        if self.find_run(run_uuid).is_some() {
            return ;
        }
        let ghost old_runs = self.solver_runs@;
        self.solver_runs.push(
            SolverRunRow {
                sr_id: self.next_sr_id,
                run_uuid,
                solver_uuid,
                name: None,
                description: None,
                user_key: None,
                hide: false,
                num_scheduled: None,
                created_at: now,
            },
        );
        self.next_sr_id = self.next_sr_id + 1;
        proof {
            assert(self.solver_runs@.subrange(0, old_runs.len() as int) =~= old_runs);
            assert(self.solver_runs@[old_runs.len() as int].run_uuid == run_uuid);
            assert forall|i: int, j: int| 0 <= i < j < self.solver_runs@.len() implies (
            #[trigger] self.solver_runs@[i]).run_uuid != (#[trigger] self.solver_runs@[j]).run_uuid
                by {
                if j < old_runs.len() {
                    assert(self.solver_runs@[i] == old_runs[i] && self.solver_runs@[j]
                        == old_runs[j]);
                } else {
                    assert(self.solver_runs@[i] == old_runs[i]);
                }
            }
            assert forall|i: int| 0 <= i < self.solver_runs@.len() implies (
            #[trigger] self.solver_runs@[i]).sr_id < self.next_sr_id by {
                if i < old_runs.len() {
                    assert(self.solver_runs@[i] == old_runs[i]);
                }
            }
            assert forall|u: u128| #[trigger] has_run(self.solver_runs@, u) implies has_run(
                old_runs,
                u,
            ) || u == run_uuid by {
                let k = choose|k: int|
                    0 <= k < self.solver_runs@.len() && (#[trigger] self.solver_runs@[k]).run_uuid
                        == u;
                if k < old_runs.len() {
                    assert(old_runs[k].run_uuid == u);
                }
            }
            assert forall|u: u128| has_run(old_runs, u) || u == run_uuid implies #[trigger] has_run(
                self.solver_runs@,
                u,
            ) by {
                if has_run(old_runs, u) {
                    let k = choose|k: int|
                        0 <= k < old_runs.len() && (#[trigger] old_runs[k]).run_uuid == u;
                    assert(self.solver_runs@[k].run_uuid == u);
                } else {
                    assert(self.solver_runs@[old_runs.len() as int].run_uuid == u);
                }
            }
        }
    }

    /// Lowers the best score of an instance when the new score beats it:
    /// the conditional update of the best-score protocol.
    fn update_instance_score(&mut self, instance_iid: u32, new_score: u32)
        requires
            unique_iids(old(self).instances@),
        ensures
            final(self).instances@.len() == old(self).instances@.len(),
            forall|j: int|
                0 <= j < old(self).instances@.len() ==> final(self).instances@[j] == (if (
                #[trigger] old(self).instances@[j]).iid == instance_iid {
                    set_best(
                        old(self).instances@[j],
                        opt_min(old(self).instances@[j].best_score, Some(new_score)),
                    )
                } else {
                    old(self).instances@[j]
                }),
            unique_iids(final(self).instances@),
            final(self).instance_data == old(self).instance_data,
            final(self).solutions == old(self).solutions,
            final(self).solution_data == old(self).solution_data,
            final(self).solver_runs == old(self).solver_runs,
            final(self).tags == old(self).tags,
            final(self).instance_tags == old(self).instance_tags,
            final(self).next_iid == old(self).next_iid,
            final(self).next_did == old(self).next_did,
            final(self).next_sid == old(self).next_sid,
            final(self).next_tid == old(self).next_tid,
            final(self).next_sr_id == old(self).next_sr_id,
    {
        let idx = match self.find_instance(instance_iid) {
            Some(i) => i,
            None => {
                proof {
                    assert forall|j: int|
                        0 <= j < old(self).instances@.len() implies final(self).instances@[j] == (
                    if (#[trigger] old(self).instances@[j]).iid == instance_iid {
                        set_best(
                            old(self).instances@[j],
                            opt_min(old(self).instances@[j].best_score, Some(new_score)),
                        )
                    } else {
                        old(self).instances@[j]
                    }) by {
                        assert(self.instances@[j].iid != instance_iid);
                    }
                }
                return ;
            },
        };
        let ghost old_insts = self.instances@;
        let mut row = self.instances.remove(idx);
        let better = match row.best_score {
            Some(b) => b > new_score,
            None => true,
        };
        if better {
            row.best_score = Some(new_score);
        }
        proof {
            assert(row == set_best(
                old_insts[idx as int],
                opt_min(old_insts[idx as int].best_score, Some(new_score)),
            ));
        }
        self.instances.insert(idx, row);
        proof {
            assert(self.instances@ =~= old_insts.update(idx as int, row));
            assert forall|j: int| 0 <= j < old_insts.len() implies self.instances@[j] == (if (
            #[trigger] old_insts[j]).iid == instance_iid {
                set_best(old_insts[j], opt_min(old_insts[j].best_score, Some(new_score)))
            } else {
                old_insts[j]
            }) by {
                if j != idx as int {
                    assert(self.instances@[j] == old_insts[j]);
                    assert(old_insts[j].iid != old_insts[idx as int].iid);
                }
            }
            assert forall|i: int, j: int| 0 <= i < j < self.instances@.len() implies (
            #[trigger] self.instances@[i]).iid != (#[trigger] self.instances@[j]).iid by {
                assert(self.instances@[i].iid == old_insts[i].iid);
                assert(self.instances@[j].iid == old_insts[j].iid);
            }
        }
    }
}

impl Store {
    /// Index of the solution payload row with a given content hash.
    fn find_sol_data(&self, h: &Vec<u8>) -> (r: Option<usize>)
        ensures
            r matches Some(i) ==> i < self.solution_data@.len()
                && self.solution_data@[i as int].hash@ == h@,
            r is Some <==> has_sol_data(self.solution_data@, h@),
    {
        let mut i: usize = 0;
        while i < self.solution_data.len()
            invariant
                0 <= i <= self.solution_data@.len(),
                forall|k: int| 0 <= k < i ==> (#[trigger] self.solution_data@[k]).hash@ != h@,
            decreases self.solution_data@.len() - i,
        {
            if bytes_eq(&self.solution_data[i].hash, h) {
                return Some(i);
            }
            i = i + 1;
        }
        proof {
            if has_sol_data(self.solution_data@, h@) {
                let k = choose|k: int|
                    0 <= k < self.solution_data@.len() && (#[trigger] self.solution_data@[k]).hash@
                        == h@;
            }
        }
        None
    }

    /// Parses the referenced instance and checks that the proposed
    /// 1-indexed set dominates it.
    pub fn verify_solution(&self, instance_id: u32, data: Vec<crate::graph::Node>) -> (r: Result<
        crate::solution::Solution,
        CoreError,
    >)
        requires
            self.wf(),
        ensures
            r matches Ok(s) ==> {
                &&& instance_model(*self, instance_id) matches Some((n, edges))
                &&& s.solution@ == crate::solution::dec1_all(data@)
                &&& (forall|k: int|
                    0 <= k < data@.len() ==> 1 <= #[trigger] data@[k] && data@[k]
                        <= instance_model(*self, instance_id)->Some_0.0)
                &&& crate::solution::dominates(
                    instance_model(*self, instance_id)->Some_0.1,
                    s.solution@,
                    instance_model(*self, instance_id)->Some_0.0,
                )
            },
            (has_instance(self.instances@, instance_id) && (instance_model(*self, instance_id)
                matches Some((n, edges)) && (forall|k: int|
                0 <= k < data@.len() ==> 1 <= #[trigger] data@[k] && data@[k] <= n)
                && crate::solution::dominates(
                edges,
                crate::solution::dec1_all(data@),
                n,
            ))) ==> r is Ok,
            r matches Err(e) ==> (e.kind == ErrorKind::BadInput || e.kind == ErrorKind::NotFound
                || e.kind == ErrorKind::Integrity),
            r matches Err(e) && e.kind == ErrorKind::NotFound ==> !has_instance(
                self.instances@,
                instance_id,
            ),
            has_instance(self.instances@, instance_id) && instance_model(*self, instance_id)
                is Some ==> (r matches Err(e) ==> e.kind == ErrorKind::BadInput),
    {
        let (nodes, edges) = match self.read_instance_data(instance_id) {
            Ok(t) => t,
            Err(e) => {
                return Err(e);
            },
        };
        let sol = match crate::solution::Solution::from_1indexed_vec(data, Some(nodes)) {
            Ok(s) => s,
            Err(e) => {
                return Err(e);
            },
        };
        let ok = match sol.valid_domset_for_instance(nodes, &edges) {
            Ok(b) => b,
            Err(e) => {
                proof {
                    assert(false);
                }
                return Err(e);
            },
        };
        if !ok {
            return Err(
                CoreError::bad_input("solution is not a valid dominating set for the instance"),
            );
        }
        Ok(sol)
    }

    /// Records one solver result for one instance: verify and
    /// content-address a proposed set, resolve a cached hash, or store a
    /// typed negative outcome; create the solver run on first sight and
    /// maintain the instance's best score. A `(run, instance)` pair can
    /// succeed only once; a dry run validates everything and changes
    /// nothing.
    #[verifier::rlimit(100)]
    pub fn upload_solution(&mut self, req: SolutionUploadRequest, now: u64) -> (r: Result<
        SolutionUploadResponse,
        CoreError,
    >)
        requires
            old(self).wf(),
            old(self).next_sid < u32::MAX,
            old(self).next_sr_id < u32::MAX,
        ensures
            final(self).wf(),
            r is Err ==> same_state(*final(self), *old(self)),
            req.dry_run ==> same_state(*final(self), *old(self)),
            (r matches Err(e) && e.kind == ErrorKind::Conflict) <==> (!(req.result is Empty)
                && has_run_pair(old(self).solutions@, req.run_uuid, req.instance_id)),
            r is Ok <==> upload_accepted(*old(self), req),
            r matches Ok(resp) ==> upload_response_ok(*old(self), req, resp),
            r is Ok && !req.dry_run ==> {
                let nr = final(self).solutions@.last();
                &&& final(self).solutions@.len() == old(self).solutions@.len() + 1
                &&& final(self).solutions@.subrange(0, old(self).solutions@.len() as int) == old(self).solutions@
                &&& nr.sid == old(self).next_sid
                &&& final(self).next_sid == old(self).next_sid + 1
                &&& nr.sr_uuid == req.run_uuid
                &&& nr.instance_iid == req.instance_id
                &&& nr.seconds_computed == req.seconds_computed
                &&& nr.created_at == now
                &&& Some(nr.error_code) == req.result.result_type_spec()
                &&& has_run(final(self).solver_runs@, req.run_uuid)
                &&& (req.result matches SolverResult::Valid { data } ==> {
                    let ids = crate::solution::sorted_nodes_of(
                        crate::solution::dec1_all(data@).to_set(),
                    );
                    let digest = crate::solution::solution_digest(
                        crate::solution::dec1_all(data@),
                    );
                    &&& nr.score == Some(ids.len() as u32)
                    &&& sol_hash_view(nr) == Some(digest)
                    &&& has_sol_data(final(self).solution_data@, digest)
                    &&& (if has_sol_data(old(self).solution_data@, digest) {
                        final(self).solution_data == old(self).solution_data
                    } else {
                        final(self).solution_data@.len() == old(self).solution_data@.len() + 1
                            && final(self).solution_data@.subrange(
                            0,
                            old(self).solution_data@.len() as int,
                        ) == old(self).solution_data@ && final(self).solution_data@.last().hash@
                            == digest && final(self).solution_data@.last().data@
                            == json_u32_list(ids)
                    })
                })
                &&& (req.result matches SolverResult::ValidCached { hash } ==> sol_hash_view(nr)
                    == Some(hash@) && (exists|i: int|
                    0 <= i < old(self).solutions@.len() && sol_hash_view(
                        #[trigger] old(self).solutions@[i],
                    ) == Some(hash@) && nr.score == old(self).solutions@[i].score))
                &&& (req.result.result_type_spec() != Some(SolverResultType::Valid) ==> nr.score
                    is None && nr.solution_hash is None && final(self).solution_data == old(self).solution_data)
                &&& final(self).instances@.len() == old(self).instances@.len()
                &&& (forall|j: int|
                    0 <= j < old(self).instances@.len() ==> (#[trigger] final(self).instances@[j]).iid == old(self).instances@[j].iid && final(self).instances@[j].best_score == min_valid_score(
                        final(self).solutions@,
                        old(self).instances@[j].iid,
                    ))
                &&& (forall|j: int|
                    0 <= j < old(self).instances@.len() ==> #[trigger] final(self).instances@[j]
                        == set_best(old(self).instances@[j], final(self).instances@[j].best_score))
                &&& (req.result.result_type_spec() == Some(SolverResultType::Valid) ==> (forall|
                j: int|
                    0 <= j < old(self).instances@.len() && (#[trigger] old(self).instances@[j]).iid
                        == req.instance_id ==> final(self).instances@[j].best_score == opt_min(
                        old(self).instances@[j].best_score,
                        nr.score,
                    )))
                &&& (req.result.result_type_spec() != Some(SolverResultType::Valid) ==> final(self).instances == old(self).instances)
                &&& final(self).solver_runs@.len() <= old(self).solver_runs@.len() + 1
                &&& final(self).solver_runs@.subrange(0, old(self).solver_runs@.len() as int)
                    == old(self).solver_runs@
                &&& (has_run(old(self).solver_runs@, req.run_uuid) ==> final(self).solver_runs
                    == old(self).solver_runs && final(self).next_sr_id == old(self).next_sr_id)
                &&& (!has_run(old(self).solver_runs@, req.run_uuid) ==> {
                    let run_row = final(self).solver_runs@.last();
                    &&& final(self).solver_runs@.len() == old(self).solver_runs@.len() + 1
                    &&& run_row.run_uuid == req.run_uuid
                    &&& run_row.solver_uuid == req.solver_uuid
                    &&& run_row.sr_id == old(self).next_sr_id
                    &&& run_row.hide == false
                    &&& run_row.created_at == now
                    &&& final(self).next_sr_id == old(self).next_sr_id + 1
                })
                &&& final(self).instance_data == old(self).instance_data
                &&& final(self).tags == old(self).tags
                &&& final(self).instance_tags == old(self).instance_tags
                &&& final(self).next_iid == old(self).next_iid
                &&& final(self).next_did == old(self).next_did
                &&& final(self).next_tid == old(self).next_tid
            },
            r matches Err(e) ==> (e.kind == ErrorKind::BadInput || e.kind == ErrorKind::NotFound
                || e.kind == ErrorKind::Conflict || e.kind == ErrorKind::Integrity),
            (req.result matches SolverResult::ValidCached { hash } && !has_run_pair(
                old(self).solutions@,
                req.run_uuid,
                req.instance_id,
            ) && has_instance(old(self).instances@, req.instance_id) && (r matches Err(e)))
                ==> r->Err_0.kind == ErrorKind::NotFound && !sol_hash_referenced(
                old(self).solutions@,
                (req.result->ValidCached_hash)@,
            ),
    {
        let result = req.result;
        let kind = match result.result_type() {
            Some(k) => k,
            None => {
                return Err(CoreError::bad_input("empty solution result"));
            },
        };
        if self.has_pair(req.run_uuid, req.instance_id) {
            return Err(
                CoreError::new(ErrorKind::Conflict, "this run already has a result here"),
            );
        }
        if self.find_instance(req.instance_id).is_none() {
            return Err(CoreError::new(ErrorKind::NotFound, "no such instance"));
        }
        match result {
            SolverResult::Valid { data } => {
                let ghost gdata = data@;
                let sol = match self.verify_solution(req.instance_id, data) {
                    Ok(s) => s,
                    Err(e) => {
                        return Err(e);
                    },
                };
                let ghost gsol = sol.solution@;
                let sorted = crate::solution::sort_nodes(sol.solution);
                let ghost gsorted = sorted@;
                let ids = crate::solution::dedup_sorted_nodes(sorted);
                let ghost gids = ids@;
                proof {
                    broadcast use vstd::seq_lib::group_to_multiset_ensures;

                    let base = crate::solution::dec1_all(gdata);
                    assert(gsol == base);
                    assert forall|v: u32| gids.to_set().contains(v) <==> base.to_set().contains(
                        v,
                    ) by {
                        assert(gids.to_set() == gsorted.to_set());
                        if gsorted.to_set().contains(v) {
                            assert(gsorted.contains(v));
                            assert(gsorted.to_multiset().count(v) > 0);
                            assert(gsol.to_multiset().count(v) > 0);
                            assert(gsol.contains(v));
                            assert(base.to_set().contains(v));
                        }
                        if base.to_set().contains(v) {
                            assert(gsol.contains(v));
                            assert(gsol.to_multiset().count(v) > 0);
                            assert(gsorted.to_multiset().count(v) > 0);
                            assert(gsorted.contains(v));
                            assert(gsorted.to_set().contains(v));
                        }
                    }
                    assert(gids.to_set() =~= base.to_set());
                    crate::solution::lemma_sorted_nodes_of_witness(gids);
                    let model = instance_model(*self, req.instance_id)->Some_0;
                    assert forall|k: int| 0 <= k < gids.len() implies #[trigger] gids[k]
                        < model.0 by {
                        assert(gids.to_set().contains(gids[k]));
                        assert(base.contains(gids[k]));
                        let w = choose|w: int| 0 <= w < base.len() && base[w] == gids[k];
                    }
                    lemma_strictly_increasing_len(gids, model.0);
                }
                let score = ids.len() as u32;
                let sol2 = crate::solution::Solution::from_0indexed_vec(ids);
                let hash = sol2.compute_digest();
                let payload = json_u32_list_exec(&sol2.solution);
                if req.dry_run {
                    return Ok(
                        SolutionUploadResponse { solution_hash: Some(hash), score: Some(score) },
                    );
                }
                let ghost old_sdata = self.solution_data@;
                let hash_row = bytes_copy(&hash);
                if self.find_sol_data(&hash).is_none() {
                    let hash_data = bytes_copy(&hash);
                    self.solution_data.push(SolutionDataRow { hash: hash_data, data: payload });
                    proof {
                        assert(self.solution_data@.subrange(0, old_sdata.len() as int)
                            =~= old_sdata);
                    }
                }
                self.upsert_solver_run(req.run_uuid, req.solver_uuid, now);
                let ghost old_sols = self.solutions@;
                let row = SolutionRow {
                    sid: self.next_sid,
                    sr_uuid: req.run_uuid,
                    instance_iid: req.instance_id,
                    error_code: SolverResultType::Valid,
                    score: Some(score),
                    seconds_computed: req.seconds_computed,
                    solution_hash: Some(hash_row),
                    created_at: now,
                };
                self.solutions.push(row);
                self.next_sid = self.next_sid + 1;
                self.update_instance_score(req.instance_id, score);
                proof {
                    assert(self.solutions@.subrange(0, old_sols.len() as int) =~= old_sols);
                    assert(self.solution_data@.subrange(
                        0,
                        old(self).solution_data@.len() as int,
                    ) =~= old(self).solution_data@);
                    assert(has_sol_data(self.solution_data@, hash@)) by {
                        if has_sol_data(old_sdata, hash@) {
                            let k = choose|k: int|
                                0 <= k < old_sdata.len() && (#[trigger] old_sdata[k]).hash@
                                    == hash@;
                            assert(self.solution_data@[k] == old_sdata[k]);
                        } else {
                            assert(self.solution_data@[self.solution_data@.len() - 1].hash@
                                == hash@);
                        }
                    }
                    assert(sol_hash_view(self.solutions@.last()) == Some(hash@));
                    lemma_upload_restore_wf(*old(self), *self, score);
                }
                Ok(SolutionUploadResponse { solution_hash: Some(hash), score: Some(score) })
            },
            SolverResult::ValidCached { hash } => {
                let sidx = match self.find_solution_by_hash(&hash) {
                    Some(i) => i,
                    None => {
                        return Err(CoreError::new(ErrorKind::NotFound, "unknown cached hash"));
                    },
                };
                let score = match self.solutions[sidx].score {
                    Some(s) => s,
                    None => {
                        proof {
                            assert(self.solutions@[sidx as int].error_code
                                == SolverResultType::Valid);
                            assert(false);
                        }
                        return Err(CoreError::new(ErrorKind::Integrity, "cached row has no score"));
                    },
                };
                if req.dry_run {
                    return Ok(
                        SolutionUploadResponse { solution_hash: Some(hash), score: Some(score) },
                    );
                }
                let hash_resp = bytes_copy(&hash);
                self.upsert_solver_run(req.run_uuid, req.solver_uuid, now);
                let ghost old_sols = self.solutions@;
                let row = SolutionRow {
                    sid: self.next_sid,
                    sr_uuid: req.run_uuid,
                    instance_iid: req.instance_id,
                    error_code: SolverResultType::Valid,
                    score: Some(score),
                    seconds_computed: req.seconds_computed,
                    solution_hash: Some(hash),
                    created_at: now,
                };
                self.solutions.push(row);
                self.next_sid = self.next_sid + 1;
                self.update_instance_score(req.instance_id, score);
                proof {
                    assert(self.solutions@.subrange(0, old_sols.len() as int) =~= old_sols);
                    assert(self.solution_data@.subrange(
                        0,
                        old(self).solution_data@.len() as int,
                    ) =~= old(self).solution_data@);
                    lemma_upload_restore_wf(*old(self), *self, score);
                }
                Ok(SolutionUploadResponse { solution_hash: Some(hash_resp), score: Some(score) })
            },
            SolverResult::Empty => {
                proof {
                    assert(false);
                }
                Err(CoreError::bad_input("empty solution result"))
            },
            _ => {
                if req.dry_run {
                    return Ok(SolutionUploadResponse { solution_hash: None, score: None });
                }
                self.upsert_solver_run(req.run_uuid, req.solver_uuid, now);
                let ghost old_sols = self.solutions@;
                let row = SolutionRow {
                    sid: self.next_sid,
                    sr_uuid: req.run_uuid,
                    instance_iid: req.instance_id,
                    error_code: kind,
                    score: None,
                    seconds_computed: req.seconds_computed,
                    solution_hash: None,
                    created_at: now,
                };
                self.solutions.push(row);
                self.next_sid = self.next_sid + 1;
                proof {
                    assert(self.solutions@.subrange(0, old_sols.len() as int) =~= old_sols);
                    lemma_upload_restore_wf_invalid(*old(self), *self);
                }
                Ok(SolutionUploadResponse { solution_hash: None, score: None })
            },
        }
    }
}

/// After recording a valid solution — run upserted, payload shared or
/// stored, the row appended, the best score lowered — every store
/// invariant holds again.
#[verifier::rlimit(100)]
proof fn lemma_upload_restore_wf(a: Store, b: Store, score: u32)
    requires
        a.wf(),
        b.instance_data == a.instance_data,
        b.tags == a.tags,
        b.instance_tags == a.instance_tags,
        b.next_iid == a.next_iid,
        b.next_did == a.next_did,
        b.next_tid == a.next_tid,
        unique_run_uuids(b.solver_runs@),
        forall|i: int|
            0 <= i < b.solver_runs@.len() ==> (#[trigger] b.solver_runs@[i]).sr_id < b.next_sr_id,
        forall|u: u128| #[trigger] has_run(a.solver_runs@, u) ==> has_run(b.solver_runs@, u),
        b.solutions@.len() == a.solutions@.len() + 1,
        b.solutions@.subrange(0, a.solutions@.len() as int) == a.solutions@,
        b.solutions@.last().sid == a.next_sid,
        b.next_sid == a.next_sid + 1,
        !has_run_pair(a.solutions@, b.solutions@.last().sr_uuid, b.solutions@.last().instance_iid),
        has_instance(a.instances@, b.solutions@.last().instance_iid),
        b.solutions@.last().error_code == SolverResultType::Valid,
        b.solutions@.last().score == Some(score),
        b.solutions@.last().solution_hash is Some,
        has_sol_data(b.solution_data@, sol_hash_view(b.solutions@.last())->Some_0),
        has_run(b.solver_runs@, b.solutions@.last().sr_uuid),
        unique_sol_hashes(b.solution_data@),
        b.solution_data@.subrange(0, a.solution_data@.len() as int) == a.solution_data@,
        a.solution_data@.len() <= b.solution_data@.len() <= a.solution_data@.len() + 1,
        b.solution_data@.len() == a.solution_data@.len() + 1 ==> b.solution_data@.last().hash@
            == sol_hash_view(b.solutions@.last())->Some_0,
        b.instances@.len() == a.instances@.len(),
        forall|j: int|
            0 <= j < a.instances@.len() ==> #[trigger] b.instances@[j] == (if a.instances@[j].iid
                == b.solutions@.last().instance_iid {
                set_best(
                    a.instances@[j],
                    opt_min(a.instances@[j].best_score, Some(score)),
                )
            } else {
                a.instances@[j]
            }),
    ensures
        b.wf(),
{
    let nr = b.solutions@.last();
    let n0 = a.solutions@.len() as int;
    assert forall|i: int, j: int| 0 <= i < j < b.instances@.len() implies (
    #[trigger] b.instances@[i]).iid != (#[trigger] b.instances@[j]).iid by {
        assert(b.instances@[i].iid == a.instances@[i].iid);
        assert(b.instances@[j].iid == a.instances@[j].iid);
    }
    assert forall|i: int, j: int| 0 <= i < j < b.solutions@.len() implies (
    #[trigger] b.solutions@[i]).sid != (#[trigger] b.solutions@[j]).sid && !((
    b.solutions@[i]).sr_uuid == (b.solutions@[j]).sr_uuid && b.solutions@[i].instance_iid
        == b.solutions@[j].instance_iid) by {
        if j < n0 {
            assert(b.solutions@[i] == a.solutions@[i] && b.solutions@[j] == a.solutions@[j]);
        } else {
            assert(b.solutions@[i] == a.solutions@[i]);
            assert(b.solutions@[j] == nr);
        }
    }
    assert forall|i: int| 0 <= i < b.instances@.len() implies has_did(
        b.instance_data@,
        (#[trigger] b.instances@[i]).data_did,
    ) by {
        assert(b.instances@[i].data_did == a.instances@[i].data_did);
    }
    assert forall|i: int| 0 <= i < b.instance_data@.len() implies data_referenced(
        b.instances@,
        (#[trigger] b.instance_data@[i]).did,
    ) by {
        let k = choose|k: int|
            0 <= k < a.instances@.len() && (#[trigger] a.instances@[k]).data_did
                == b.instance_data@[i].did;
        assert(b.instances@[k].data_did == a.instances@[k].data_did);
    }
    assert forall|i: int| 0 <= i < b.solutions@.len() implies has_instance(
        b.instances@,
        (#[trigger] b.solutions@[i]).instance_iid,
    ) by {
        if i < n0 {
            assert(b.solutions@[i] == a.solutions@[i]);
        }
        let k = choose|k: int|
            0 <= k < a.instances@.len() && (#[trigger] a.instances@[k]).iid
                == b.solutions@[i].instance_iid;
        assert(b.instances@[k].iid == a.instances@[k].iid);
    }
    assert forall|i: int|
        0 <= i < b.solutions@.len() && (#[trigger] b.solutions@[i]).solution_hash is Some implies
        has_sol_data(b.solution_data@, sol_hash_view(b.solutions@[i])->Some_0) by {
        if i < n0 {
            assert(b.solutions@[i] == a.solutions@[i]);
            let k = choose|k: int|
                0 <= k < a.solution_data@.len() && (#[trigger] a.solution_data@[k]).hash@
                    == sol_hash_view(a.solutions@[i])->Some_0;
            assert(b.solution_data@[k] == a.solution_data@[k]);
        }
    }
    assert forall|i: int| 0 <= i < b.solutions@.len() implies has_run(
        b.solver_runs@,
        (#[trigger] b.solutions@[i]).sr_uuid,
    ) by {
        if i < n0 {
            assert(b.solutions@[i] == a.solutions@[i]);
            assert(has_run(a.solver_runs@, a.solutions@[i].sr_uuid));
        }
    }
    assert forall|i: int| 0 <= i < b.solution_data@.len() implies sol_hash_referenced(
        b.solutions@,
        (#[trigger] b.solution_data@[i]).hash@,
    ) by {
        if i < a.solution_data@.len() {
            assert(b.solution_data@[i] == a.solution_data@[i]);
            let k = choose|k: int|
                0 <= k < a.solutions@.len() && sol_hash_view(#[trigger] a.solutions@[k]) == Some(
                    a.solution_data@[i].hash@,
                );
            assert(sol_hash_view(b.solutions@[k]) == Some(b.solution_data@[i].hash@));
        } else {
            assert(sol_hash_view(nr) == Some(b.solution_data@[i].hash@));
            assert(b.solutions@[b.solutions@.len() - 1] == nr);
        }
    }
    assert forall|i: int| 0 <= i < b.solutions@.len() implies ((#[trigger] b.solutions@[i]).error_code
        == SolverResultType::Valid <==> b.solutions@[i].solution_hash is Some) && (
    b.solutions@[i].error_code == SolverResultType::Valid <==> b.solutions@[i].score is Some) && (
    b.solutions@[i]).sid < b.next_sid by {
        if i < n0 {
            assert(b.solutions@[i] == a.solutions@[i]);
        }
    }
    assert forall|i: int| 0 <= i < b.instances@.len() implies (#[trigger] b.instances@[i]).iid
        < b.next_iid by {
        assert(b.instances@[i].iid == a.instances@[i].iid);
    }
    assert forall|i: int| 0 <= i < b.instances@.len() implies (#[trigger] b.instances@[i]).best_score
        == min_valid_score(b.solutions@, b.instances@[i].iid) by {
        assert(b.solutions@.drop_last() =~= a.solutions@);
        lemma_min_score_push(a.solutions@, nr, b.instances@[i].iid);
        assert(a.solutions@.push(nr) =~= b.solutions@);
        if a.instances@[i].iid == nr.instance_iid {
            assert(b.instances@[i] == set_best(
                a.instances@[i],
                opt_min(a.instances@[i].best_score, Some(score)),
            ));
            assert(a.instances@[i].best_score == min_valid_score(a.solutions@, a.instances@[i].iid));
        } else {
            assert(b.instances@[i] == a.instances@[i]);
        }
    }
}

/// After recording a negative outcome — run upserted, the row appended
/// with no payload and no score — every store invariant holds again.
#[verifier::rlimit(100)]
proof fn lemma_upload_restore_wf_invalid(a: Store, b: Store)
    requires
        a.wf(),
        b.instances == a.instances,
        b.instance_data == a.instance_data,
        b.solution_data == a.solution_data,
        b.tags == a.tags,
        b.instance_tags == a.instance_tags,
        b.next_iid == a.next_iid,
        b.next_did == a.next_did,
        b.next_tid == a.next_tid,
        unique_run_uuids(b.solver_runs@),
        forall|i: int|
            0 <= i < b.solver_runs@.len() ==> (#[trigger] b.solver_runs@[i]).sr_id < b.next_sr_id,
        forall|u: u128| #[trigger] has_run(a.solver_runs@, u) ==> has_run(b.solver_runs@, u),
        b.solutions@.len() == a.solutions@.len() + 1,
        b.solutions@.subrange(0, a.solutions@.len() as int) == a.solutions@,
        b.solutions@.last().sid == a.next_sid,
        b.next_sid == a.next_sid + 1,
        !has_run_pair(a.solutions@, b.solutions@.last().sr_uuid, b.solutions@.last().instance_iid),
        has_instance(a.instances@, b.solutions@.last().instance_iid),
        b.solutions@.last().error_code != SolverResultType::Valid,
        b.solutions@.last().score is None,
        b.solutions@.last().solution_hash is None,
        has_run(b.solver_runs@, b.solutions@.last().sr_uuid),
    ensures
        b.wf(),
{
    let nr = b.solutions@.last();
    let n0 = a.solutions@.len() as int;
    assert forall|i: int, j: int| 0 <= i < j < b.solutions@.len() implies (
    #[trigger] b.solutions@[i]).sid != (#[trigger] b.solutions@[j]).sid && !((
    b.solutions@[i]).sr_uuid == (b.solutions@[j]).sr_uuid && b.solutions@[i].instance_iid
        == b.solutions@[j].instance_iid) by {
        if j < n0 {
            assert(b.solutions@[i] == a.solutions@[i] && b.solutions@[j] == a.solutions@[j]);
        } else {
            assert(b.solutions@[i] == a.solutions@[i]);
            assert(b.solutions@[j] == nr);
        }
    }
    assert forall|i: int| 0 <= i < b.solutions@.len() implies has_instance(
        b.instances@,
        (#[trigger] b.solutions@[i]).instance_iid,
    ) && has_run(b.solver_runs@, b.solutions@[i].sr_uuid) && ((b.solutions@[i]).error_code
        == SolverResultType::Valid <==> b.solutions@[i].solution_hash is Some) && ((
    b.solutions@[i]).error_code == SolverResultType::Valid <==> b.solutions@[i].score is Some) && (
    b.solutions@[i]).sid < b.next_sid by {
        if i < n0 {
            assert(b.solutions@[i] == a.solutions@[i]);
            assert(has_run(a.solver_runs@, a.solutions@[i].sr_uuid));
        }
    }
    assert forall|i: int|
        0 <= i < b.solutions@.len() && (#[trigger] b.solutions@[i]).solution_hash is Some implies
        has_sol_data(b.solution_data@, sol_hash_view(b.solutions@[i])->Some_0) by {
        if i < n0 {
            assert(b.solutions@[i] == a.solutions@[i]);
        }
    }
    assert forall|i: int| 0 <= i < b.solution_data@.len() implies sol_hash_referenced(
        b.solutions@,
        (#[trigger] b.solution_data@[i]).hash@,
    ) by {
        let k = choose|k: int|
            0 <= k < a.solutions@.len() && sol_hash_view(#[trigger] a.solutions@[k]) == Some(
                a.solution_data@[i].hash@,
            );
        assert(sol_hash_view(b.solutions@[k]) == Some(b.solution_data@[i].hash@));
    }
    assert forall|i: int| 0 <= i < b.instances@.len() implies (#[trigger] b.instances@[i]).best_score
        == min_valid_score(b.solutions@, b.instances@[i].iid) by {
        lemma_min_score_push(a.solutions@, nr, b.instances@[i].iid);
        assert(a.solutions@.push(nr) =~= b.solutions@);
    }
}

/// Content-addressed storage: a well-formed store holds at most one
/// payload row per content hash, so uploads whose canonical bytes coincide
/// share one row; `upload_instance` reuses it and adds nothing.
pub proof fn lemma_payload_row_per_hash_unique(st: Store, i: int, j: int)
    requires
        st.wf(),
        0 <= i < st.instance_data@.len(),
        0 <= j < st.instance_data@.len(),
        st.instance_data@[i].hash@ == st.instance_data@[j].hash@,
    ensures
        i == j,
{
    if i < j {
        assert(st.instance_data@[i].hash@ != st.instance_data@[j].hash@);
    }
    if j < i {
        assert(st.instance_data@[j].hash@ != st.instance_data@[i].hash@);
    }
}

/// Orphan collection: a well-formed store keeps a payload row exactly as
/// long as something references it, and `delete_instance` re-establishes
/// this by dropping every newly orphaned row.
pub proof fn lemma_no_orphan_payloads(st: Store, i: int, j: int)
    requires
        st.wf(),
        0 <= i < st.instance_data@.len(),
        0 <= j < st.solution_data@.len(),
    ensures
        data_referenced(st.instances@, st.instance_data@[i].did),
        sol_hash_referenced(st.solutions@, st.solution_data@[j].hash@),
{
}

/// Best-score monotonicity: in a well-formed store every instance's best
/// score is exactly the minimum score among its valid solutions, so after
/// any sequence of valid uploads it equals the smallest score uploaded.
pub proof fn lemma_best_score_is_minimum(st: Store, i: int)
    requires
        st.wf(),
        0 <= i < st.instances@.len(),
    ensures
        st.instances@[i].best_score == min_valid_score(st.solutions@, st.instances@[i].iid),
{
}

/// One result per run and instance: a well-formed store never holds two
/// solution rows for the same `(run, instance)` pair, and
/// `upload_solution` refuses the second attempt with a conflict.
pub proof fn lemma_run_pair_unique(st: Store, i: int, j: int)
    requires
        st.wf(),
        0 <= i < st.solutions@.len(),
        0 <= j < st.solutions@.len(),
        st.solutions@[i].sr_uuid == st.solutions@[j].sr_uuid,
        st.solutions@[i].instance_iid == st.solutions@[j].instance_iid,
    ensures
        i == j,
{
    if i < j {
        assert(!(st.solutions@[i].sr_uuid == st.solutions@[j].sr_uuid
            && st.solutions@[i].instance_iid == st.solutions@[j].instance_iid));
    }
    if j < i {
        assert(!(st.solutions@[j].sr_uuid == st.solutions@[i].sr_uuid
            && st.solutions@[j].instance_iid == st.solutions@[i].instance_iid));
    }
}

/// Copies a byte vector; the copy carries the same bytes.
pub fn bytes_copy(h: &Vec<u8>) -> (r: Vec<u8>)
    ensures
        r@ == h@,
{
    let mut c: Vec<u8> = Vec::new();
    let mut i: usize = 0;
    while i < h.len()
        invariant
            0 <= i <= h@.len(),
            c@ == h@.subrange(0, i as int),
        decreases h@.len() - i,
    {
        c.push(h[i]);
        proof {
            assert(c@ =~= h@.subrange(0, i as int + 1));
        }
        i = i + 1;
    }
    proof {
        assert(h@.subrange(0, i as int) =~= h@);
    }
    c
}

/// Whether any remaining solution still references a payload hash.
fn sol_hash_used(sols: &Vec<SolutionRow>, h: &Vec<u8>) -> (r: bool)
    ensures
        r == sol_hash_referenced(sols@, h@),
{
    let mut i: usize = 0;
    while i < sols.len()
        invariant
            0 <= i <= sols@.len(),
            forall|k: int| 0 <= k < i ==> sol_hash_view(#[trigger] sols@[k]) != Some(h@),
        decreases sols@.len() - i,
    {
        match &sols[i].solution_hash {
            Some(sh) => {
                if bytes_eq(sh, h) {
                    proof {
                        assert(sol_hash_view(sols@[i as int]) == Some(h@));
                    }
                    return true;
                }
            },
            None => {},
        }
        i = i + 1;
    }
    proof {
        if sol_hash_referenced(sols@, h@) {
            let k = choose|k: int|
                0 <= k < sols@.len() && sol_hash_view(#[trigger] sols@[k]) == Some(h@);
        }
    }
    false
}

/// Whether any remaining instance still references a payload id.
fn did_used(insts: &Vec<InstanceRow>, did: u32) -> (r: bool)
    ensures
        r == data_referenced(insts@, did),
{
    let mut i: usize = 0;
    while i < insts.len()
        invariant
            0 <= i <= insts@.len(),
            forall|k: int| 0 <= k < i ==> (#[trigger] insts@[k]).data_did != did,
        decreases insts@.len() - i,
    {
        if insts[i].data_did == did {
            return true;
        }
        i = i + 1;
    }
    proof {
        if data_referenced(insts@, did) {
            let k = choose|k: int|
                0 <= k < insts@.len() && (#[trigger] insts@[k]).data_did == did;
        }
    }
    false
}

/// Clones an optional byte vector.
pub fn clone_opt_bytes(v: &Option<Vec<u8>>) -> (r: Option<Vec<u8>>)
    ensures
        opt_bytes_view(r) == opt_bytes_view(*v),
{
    match v {
        Some(b) => {
            let mut c: Vec<u8> = Vec::new();
            let mut i: usize = 0;
            while i < b.len()
                invariant
                    0 <= i <= b@.len(),
                    c@ == b@.subrange(0, i as int),
                decreases b@.len() - i,
            {
                c.push(b[i]);
                proof {
                    assert(c@ =~= b@.subrange(0, i as int + 1));
                }
                i = i + 1;
            }
            proof {
                assert(b@.subrange(0, i as int) =~= b@);
            }
            Some(c)
        },
        None => None,
    }
}

/// Compares two byte vectors for equality.
pub fn bytes_eq(a: &Vec<u8>, b: &Vec<u8>) -> (r: bool)
    ensures
        r == (a@ == b@),
{
    if a.len() != b.len() {
        return false;
    }
    let mut i: usize = 0;
    while i < a.len()
        invariant
            0 <= i <= a@.len(),
            a@.len() == b@.len(),
            forall|k: int| 0 <= k < i ==> a@[k] == b@[k],
        decreases a@.len() - i,
    {
        if a[i] != b[i] {
            return false;
        }
        i = i + 1;
    }
    proof {
        assert(a@ =~= b@);
    }
    true
}

} // verus!
