use stride_core::err::ErrorKind;
use stride_core::store::{
    InstanceUploadRequest, SolutionUploadRequest, SolverResult, Store, TagCreateRequest,
    UpdateRequest,
};

fn upload_req(data: &[u8]) -> InstanceUploadRequest {
    InstanceUploadRequest {
        name: Some(b"inst".to_vec()),
        description: None,
        submitted_by: Some(b"tester".to_vec()),
        tags: None,
        ignore_header: None,
        data: data.to_vec(),
    }
}

fn sol_req(iid: u32, run: u128, result: SolverResult) -> SolutionUploadRequest {
    SolutionUploadRequest {
        instance_id: iid,
        run_uuid: run,
        solver_uuid: Some(7),
        seconds_computed: Some(1000),
        result,
        dry_run: false,
    }
}

#[test]
fn content_addressed_dedup() {
    // two uploads whose canonical bytes coincide share one payload row
    let mut st = Store::new();
    let a = upload_req(b"c demo\np ds 4 3\n1 2\n2 3\n3 4\n");
    let mut b = upload_req(b"p ds 4 4\n4 3\n1 2\n1 2\n3 2\n");
    b.ignore_header = Some(true);

    let iid_a = st.upload_instance(a, 10).unwrap();
    let iid_b = st.upload_instance(b, 11).unwrap();

    assert_ne!(iid_a, iid_b);
    assert_eq!(st.instances.len(), 2);
    assert_eq!(st.instance_data.len(), 1);
    assert_eq!(st.instances[0].data_did, st.instances[1].data_did);
}

#[test]
fn instance_delete_cascades() {
    // two instances share one payload; each gets a solution of its own
    let mut st = Store::new();
    let iid1 = st.upload_instance(upload_req(b"p ds 3 2\n1 2\n2 3\n"), 1).unwrap();
    let iid7 = st.upload_instance(upload_req(b"p ds 3 2\n1 2\n2 3\n"), 2).unwrap();
    assert_eq!(st.instance_data.len(), 1);

    st.upload_solution(sol_req(iid1, 100, SolverResult::Valid { data: vec![1, 2] }), 5).unwrap();
    st.upload_solution(sol_req(iid1, 101, SolverResult::Valid { data: vec![2] }), 6).unwrap();
    st.upload_solution(sol_req(iid7, 102, SolverResult::Valid { data: vec![2] }), 7).unwrap();
    assert_eq!(st.solution_data.len(), 2);

    st.delete_instance(iid1).unwrap();
    // iid1's solutions are gone; the set {2} is still referenced by iid7
    assert_eq!(st.instances.len(), 1);
    assert_eq!(st.solutions.len(), 1);
    assert_eq!(st.solution_data.len(), 1);
    // the shared instance payload survives until its last referent goes
    assert_eq!(st.instance_data.len(), 1);

    st.delete_instance(iid7).unwrap();
    assert_eq!(st.instances.len(), 0);
    assert_eq!(st.solutions.len(), 0);
    assert_eq!(st.solution_data.len(), 0);
    assert_eq!(st.instance_data.len(), 0);

    assert_eq!(st.delete_instance(iid1).unwrap_err().kind, ErrorKind::NotFound);
}

#[test]
fn solution_upload_flow() {
    // a path 0-1-2: {1,2} is valid (score 2), {1} is valid (score 1)
    let mut st = Store::new();
    let iid = st.upload_instance(upload_req(b"p ds 3 2\n1 2\n2 3\n"), 1).unwrap();

    let r1 = st.upload_solution(sol_req(iid, 100, SolverResult::Valid { data: vec![1, 2] }), 2)
        .unwrap();
    assert_eq!(r1.score, Some(2));
    let hash12 = r1.solution_hash.unwrap();
    assert_eq!(st.instances[0].best_score, Some(2));

    // the same run cannot answer the same instance twice
    let dup = st.upload_solution(sol_req(iid, 100, SolverResult::Valid { data: vec![2] }), 3);
    assert_eq!(dup.unwrap_err().kind, ErrorKind::Conflict);
    assert_eq!(st.instances[0].best_score, Some(2));

    // a better set over another run lowers the best score
    let r2 = st.upload_solution(sol_req(iid, 101, SolverResult::Valid { data: vec![2] }), 4)
        .unwrap();
    assert_eq!(r2.score, Some(1));
    assert_eq!(st.instances[0].best_score, Some(1));

    // uploading by cached hash needs no bytes and keeps the best score
    let r3 = st.upload_solution(
        sol_req(iid, 102, SolverResult::ValidCached { hash: hash12.clone() }),
        5,
    )
    .unwrap();
    assert_eq!(r3.score, Some(2));
    assert_eq!(st.instances[0].best_score, Some(1));
    assert_eq!(st.solution_data.len(), 2);

    // an unknown cached hash is refused
    let bad = st.upload_solution(
        sol_req(iid, 103, SolverResult::ValidCached { hash: vec![0u8; 20] }),
        6,
    );
    assert_eq!(bad.unwrap_err().kind, ErrorKind::NotFound);
}

#[test]
fn negative_results_have_no_payload() {
    let mut st = Store::new();
    let iid = st.upload_instance(upload_req(b"p ds 3 2\n1 2\n2 3\n"), 1).unwrap();
    let r = st.upload_solution(sol_req(iid, 100, SolverResult::Infeasible), 2).unwrap();
    assert!(r.solution_hash.is_none());
    assert!(r.score.is_none());
    assert_eq!(st.solutions.len(), 1);
    assert!(st.solutions[0].solution_hash.is_none());
    assert!(st.solutions[0].score.is_none());
    assert!(st.instances[0].best_score.is_none());
    assert_eq!(st.solution_data.len(), 0);
}

#[test]
fn dry_run_changes_nothing() {
    let mut st = Store::new();
    let iid = st.upload_instance(upload_req(b"p ds 3 2\n1 2\n2 3\n"), 1).unwrap();
    let mut req = sol_req(iid, 100, SolverResult::Valid { data: vec![1, 2] });
    req.dry_run = true;
    let r = st.upload_solution(req, 2).unwrap();
    assert_eq!(r.score, Some(2));
    assert!(r.solution_hash.is_some());
    assert_eq!(st.solutions.len(), 0);
    assert_eq!(st.solution_data.len(), 0);
    assert!(st.instances[0].best_score.is_none());
}

#[test]
fn invalid_dominating_set_is_rejected() {
    let mut st = Store::new();
    let iid = st.upload_instance(upload_req(b"p ds 3 2\n1 2\n2 3\n"), 1).unwrap();
    // node 3 alone leaves node 1 uncovered
    let r = st.upload_solution(sol_req(iid, 100, SolverResult::Valid { data: vec![3] }), 2);
    assert_eq!(r.unwrap_err().kind, ErrorKind::BadInput);
    // a node id above the instance size is rejected
    let r2 = st.upload_solution(sol_req(iid, 101, SolverResult::Valid { data: vec![9] }), 3);
    assert_eq!(r2.unwrap_err().kind, ErrorKind::BadInput);
    // an unknown instance id is rejected
    let r3 = st.upload_solution(sol_req(99, 102, SolverResult::Valid { data: vec![1] }), 4);
    assert_eq!(r3.unwrap_err().kind, ErrorKind::NotFound);
}

#[test]
fn tags_are_created_and_linked() {
    let mut st = Store::new();
    let tid = st.tag_create(TagCreateRequest {
        name: b" planar ".to_vec(),
        description: Some(b"Desc".to_vec()),
        style: 42,
    })
    .unwrap();
    assert_eq!(st.tags.len(), 1);
    assert_eq!(st.tags[0].name, b"planar".to_vec());
    assert_eq!(st.tags[0].style, 42);

    // empty and numeric names are refused, duplicates conflict
    let empty = st.tag_create(TagCreateRequest { name: b"  ".to_vec(), description: None, style: 1 });
    assert_eq!(empty.unwrap_err().kind, ErrorKind::BadInput);
    let numeric = st.tag_create(TagCreateRequest { name: b"7up".to_vec(), description: None, style: 1 });
    assert_eq!(numeric.unwrap_err().kind, ErrorKind::BadInput);
    let dup = st.tag_create(TagCreateRequest { name: b"planar".to_vec(), description: None, style: 1 });
    assert_eq!(dup.unwrap_err().kind, ErrorKind::Conflict);

    let mut req = upload_req(b"p ds 3 2\n1 2\n2 3\n");
    req.tags = Some(vec![b"planar".to_vec()]);
    let iid = st.upload_instance(req, 1).unwrap();
    assert_eq!(st.instance_tags.len(), 1);
    assert_eq!(st.instance_tags[0].instance_iid, iid);
    assert_eq!(st.instance_tags[0].tag_tid, tid);

    let mut bad = upload_req(b"p ds 3 2\n1 2\n2 3\n");
    bad.tags = Some(vec![b"unknown".to_vec()]);
    assert_eq!(st.upload_instance(bad, 2).unwrap_err().kind, ErrorKind::NotFound);
}

#[test]
fn metadata_update_bounds() {
    let mut st = Store::new();
    let iid = st.upload_instance(upload_req(b"p ds 3 2\n1 2\n2 3\n"), 1).unwrap();

    let empty = UpdateRequest {
        iid,
        name: None,
        description: None,
        min_deg: None,
        max_deg: None,
        num_ccs: None,
        nodes_largest_cc: None,
        diameter: None,
        tree_width: None,
        planar: None,
    };
    assert_eq!(st.update_instance_meta(empty).unwrap_err().kind, ErrorKind::BadInput);

    let too_big = UpdateRequest {
        iid,
        name: None,
        description: None,
        min_deg: Some(3),
        max_deg: None,
        num_ccs: None,
        nodes_largest_cc: None,
        diameter: None,
        tree_width: None,
        planar: None,
    };
    assert_eq!(st.update_instance_meta(too_big).unwrap_err().kind, ErrorKind::BadInput);

    let good = UpdateRequest {
        iid,
        name: Some(b"renamed".to_vec()),
        description: None,
        min_deg: Some(1),
        max_deg: Some(2),
        num_ccs: Some(1),
        nodes_largest_cc: Some(3),
        diameter: Some(2),
        tree_width: Some(1),
        planar: Some(true),
    };
    st.update_instance_meta(good).unwrap();
    assert_eq!(st.instances[0].name, Some(b"renamed".to_vec()));
    assert_eq!(st.instances[0].min_deg, Some(1));
    assert_eq!(st.instances[0].max_deg, Some(2));
    assert_eq!(st.instances[0].treewidth, Some(1));
    assert_eq!(st.instances[0].planar, Some(true));

    let missing = UpdateRequest {
        iid: 999,
        name: Some(b"x".to_vec()),
        description: None,
        min_deg: None,
        max_deg: None,
        num_ccs: None,
        nodes_largest_cc: None,
        diameter: None,
        tree_width: None,
        planar: None,
    };
    assert_eq!(st.update_instance_meta(missing).unwrap_err().kind, ErrorKind::NotFound);
}

#[test]
fn status_counts_track_tables() {
    let mut st = Store::new();
    assert_eq!(st.status_counts(), (0, 0, 0));
    let iid = st.upload_instance(upload_req(b"p ds 3 2\n1 2\n2 3\n"), 1).unwrap();
    st.upload_solution(sol_req(iid, 100, SolverResult::Valid { data: vec![1, 2] }), 2).unwrap();
    assert_eq!(st.status_counts(), (1, 1, 1));
}
