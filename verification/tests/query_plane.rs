use stride_core::err::ErrorKind;
use stride_core::filter::{FilterOptions, ResultStatusFilter, SortBy, SortDirection};
use stride_core::query::{compute_max_values, count_matches, instance_id_list, retrieve_instances};
use stride_core::runs::{
    fetch_instance, fetch_solution, instance_score_histogram, solution_count, solution_hash_list,
    solver_run_annotate, solver_run_list,
};
use stride_core::store::{InstanceUploadRequest, SolutionUploadRequest, SolverResult, Store, TagCreateRequest};

fn upload(st: &mut Store, data: &[u8], name: &[u8], at: u64) -> u32 {
    st.upload_instance(
        InstanceUploadRequest {
            name: Some(name.to_vec()),
            description: None,
            submitted_by: None,
            tags: None,
            ignore_header: None,
            data: data.to_vec(),
        },
        at,
    )
    .unwrap()
}

fn sol(st: &mut Store, iid: u32, run: u128, solver: u128, result: SolverResult, at: u64) {
    st.upload_solution(
        SolutionUploadRequest {
            instance_id: iid,
            run_uuid: run,
            solver_uuid: Some(solver),
            seconds_computed: Some(at * 10),
            result,
            dry_run: false,
        },
        at,
    )
    .unwrap();
}

fn demo_store() -> (Store, u32, u32, u32) {
    let mut st = Store::new();
    // sizes 3, 4 and 5 nodes
    let a = upload(&mut st, b"p ds 3 2\n1 2\n2 3\n", b"small", 1);
    let b = upload(&mut st, b"p ds 4 3\n1 2\n2 3\n3 4\n", b"middle", 2);
    let c = upload(&mut st, b"p ds 5 4\n1 2\n2 3\n3 4\n4 5\n", b"large", 3);
    (st, a, b, c)
}

#[test]
fn listing_count_matches_pagination() {
    let (st, _a, _b, _c) = demo_store();
    let mut opts = FilterOptions::default();
    opts.nodes_lb = Some(4);
    let listing = retrieve_instances(&st, &opts).unwrap();
    assert_eq!(listing.total_matches, 2);
    assert_eq!(listing.rows.len(), 2);
    assert_eq!(listing.total_matches, count_matches(&st, &opts));

    // a one-row page window
    opts.limit = 1;
    opts.page = 2;
    let page2 = retrieve_instances(&st, &opts).unwrap();
    assert_eq!(page2.total_matches, 2);
    assert_eq!(page2.rows.len(), 1);

    // beyond the last page nothing is returned, the count stands
    opts.page = 5;
    let beyond = retrieve_instances(&st, &opts).unwrap();
    assert_eq!(beyond.total_matches, 2);
    assert_eq!(beyond.rows.len(), 0);
}

#[test]
fn listing_sorts_monotonically() {
    let (st, _a, _b, _c) = demo_store();
    let mut opts = FilterOptions::default();
    opts.sort_by = SortBy::Nodes;
    opts.sort_direction = SortDirection::Desc;
    let listing = retrieve_instances(&st, &opts).unwrap();
    let nodes: Vec<u32> = listing.rows.iter().map(|&i| st.instances[i].nodes).collect();
    assert_eq!(nodes, vec![5, 4, 3]);

    opts.sort_direction = SortDirection::Asc;
    let asc = retrieve_instances(&st, &opts).unwrap();
    let nodes_asc: Vec<u32> = asc.rows.iter().map(|&i| st.instances[i].nodes).collect();
    assert_eq!(nodes_asc, vec![3, 4, 5]);

    let ids = instance_id_list(&st, &opts).unwrap();
    assert_eq!(ids.len(), 3);
}

#[test]
fn overlay_gating_is_rejected_without_run() {
    let mut opts = FilterOptions::default();
    opts.score_lb = Some(1);
    assert_eq!(FilterOptions::check_validity(&opts).unwrap_err().kind, ErrorKind::BadInput);
    assert!(retrieve_instances(&Store::new(), &opts).is_err());

    let mut opts2 = FilterOptions::default();
    opts2.sort_by = SortBy::ScoreDiff;
    assert_eq!(FilterOptions::check_validity(&opts2).unwrap_err().kind, ErrorKind::BadInput);

    let mut opts3 = FilterOptions::default();
    opts3.result_status = ResultStatusFilter::Valid;
    assert!(opts3.check_validity().is_err());

    // solver without run is as incoherent as run without solver
    let mut opts4 = FilterOptions::default();
    opts4.solver = Some(7);
    assert!(opts4.check_validity().is_err());

    let mut ok = FilterOptions::default();
    ok.solver = Some(7);
    ok.run = Some(100);
    ok.score_lb = Some(1);
    ok.sort_by = SortBy::Score;
    assert!(ok.check_validity().is_ok());
}

#[test]
fn overlay_filters_join_the_run() {
    let (mut st, a, b, _c) = demo_store();
    sol(&mut st, a, 100, 7, SolverResult::Valid { data: vec![2] }, 4);
    sol(&mut st, b, 100, 7, SolverResult::Valid { data: vec![2, 3] }, 5);

    let mut opts = FilterOptions::default();
    opts.solver = Some(7);
    opts.run = Some(100);
    opts.sort_by = SortBy::Score;
    let listing = retrieve_instances(&st, &opts).unwrap();
    // only the two instances this run answered are listed, by score
    assert_eq!(listing.total_matches, 2);
    let names: Vec<&[u8]> = listing
        .rows
        .iter()
        .map(|&i| st.instances[i].name.as_ref().unwrap().as_slice())
        .collect();
    assert_eq!(names, vec![b"small".as_slice(), b"middle".as_slice()]);

    opts.score_lb = Some(2);
    let filtered = retrieve_instances(&st, &opts).unwrap();
    assert_eq!(filtered.total_matches, 1);
}

#[test]
fn search_matches_text_and_id() {
    let (st, a, _b, _c) = demo_store();
    let mut opts = FilterOptions::default();
    opts.search = Some(b"mall".to_vec());
    assert_eq!(count_matches(&st, &opts), 1);
    let mut by_id = FilterOptions::default();
    by_id.search = Some(format!("{}", a).into_bytes());
    assert!(count_matches(&st, &by_id) >= 1);
    let mut none = FilterOptions::default();
    none.search = Some(b"no such text".to_vec());
    assert_eq!(count_matches(&st, &none), 0);
}

#[test]
fn search_matches_each_word_as_id() {
    let (st, a, _b, _c) = demo_store();
    let mut opts = FilterOptions::default();
    // the id hides between two text words the instance does not carry
    opts.search = Some(format!("zzz {} qqq", a).into_bytes());
    assert_eq!(count_matches(&st, &opts), 1);
}

#[test]
fn run_list_is_newest_first_and_complete() {
    let (mut st, a, b, _c) = demo_store();
    sol(&mut st, a, 100, 7, SolverResult::Valid { data: vec![2] }, 10);
    sol(&mut st, b, 101, 7, SolverResult::Valid { data: vec![2, 3] }, 20);
    sol(&mut st, a, 102, 7, SolverResult::Timeout, 15);

    let runs = solver_run_list(&st, 7, None, None, false);
    assert_eq!(runs.len(), 3);
    let stamps: Vec<u64> = runs.iter().map(|(i, _)| st.solver_runs[*i].created_at).collect();
    assert_eq!(stamps, vec![20, 15, 10]);
}

#[test]
fn per_run_detail_lists_the_solver_rows() {
    let (mut st, a, _b, _c) = demo_store();
    sol(&mut st, a, 100, 7, SolverResult::Valid { data: vec![2] }, 1);
    sol(&mut st, a, 101, 9, SolverResult::Valid { data: vec![1, 2] }, 2);
    sol(&mut st, a, 102, 7, SolverResult::Timeout, 3);

    let detail = stride_core::runs::solutions_of_solver(&st, a, 7);
    assert_eq!(detail.len(), 2);
    assert_eq!(st.solutions[detail[0]].sr_uuid, 100);
    assert_eq!(st.solutions[detail[1]].sr_uuid, 102);
    assert_eq!(stride_core::runs::solutions_of_solver(&st, a, 9).len(), 1);
}

#[test]
fn max_values_need_the_run_to_belong() {
    let (mut st, a, _b, _c) = demo_store();
    sol(&mut st, a, 100, 7, SolverResult::Valid { data: vec![2] }, 4);
    // the run belongs to solver 7, not to solver 9
    let mut wrong = FilterOptions::default();
    wrong.solver = Some(9);
    wrong.run = Some(100);
    let mv = compute_max_values(&st, &wrong).unwrap();
    assert!(mv.score.is_none());
    assert!(mv.score_diff.is_none());
    // the empty join aggregates nothing at all
    assert!(mv.nodes.is_none());
    assert!(mv.best_score.is_none());
}

#[test]
fn run_rollup_counts_outcomes() {
    let (mut st, a, b, c) = demo_store();
    sol(&mut st, a, 100, 7, SolverResult::Valid { data: vec![2] }, 4);
    sol(&mut st, b, 100, 7, SolverResult::Timeout, 5);
    sol(&mut st, c, 100, 7, SolverResult::Infeasible, 6);
    // a second, better run makes the first suboptimal on instance a
    sol(&mut st, a, 101, 7, SolverResult::Valid { data: vec![2] }, 7);

    let counts = solution_count(&st, 100, None);
    assert_eq!(counts.num_optimal, 1);
    assert_eq!(counts.num_suboptimal, 0);
    assert_eq!(counts.num_timeout, 1);
    assert_eq!(counts.num_infeasible, 1);
    assert_eq!(counts.seconds_timeout, 50);

    let runs = solver_run_list(&st, 7, None, None, false);
    assert_eq!(runs.len(), 2);

    let only_one = solver_run_list(&st, 7, Some(101), None, false);
    assert_eq!(only_one.len(), 1);
}

#[test]
fn run_annotation_updates_the_row() {
    let (mut st, a, _b, _c) = demo_store();
    sol(&mut st, a, 100, 7, SolverResult::Valid { data: vec![2] }, 4);

    solver_run_annotate(&mut st, 7, 100, Some(b" first run ".to_vec()), None, Some(true)).unwrap();
    assert_eq!(st.solver_runs[0].name, Some(b"first run".to_vec()));
    assert!(st.solver_runs[0].hide);

    // hidden runs disappear from the default listing
    assert_eq!(solver_run_list(&st, 7, None, None, false).len(), 0);
    assert_eq!(solver_run_list(&st, 7, None, None, true).len(), 1);

    let empty = solver_run_annotate(&mut st, 7, 100, None, None, None);
    assert_eq!(empty.unwrap_err().kind, ErrorKind::BadInput);
    let blank = solver_run_annotate(&mut st, 7, 100, Some(b"  ".to_vec()), None, None);
    assert_eq!(blank.unwrap_err().kind, ErrorKind::BadInput);
}

#[test]
fn hash_list_and_downloads() {
    let (mut st, a, _b, _c) = demo_store();
    sol(&mut st, a, 100, 7, SolverResult::Valid { data: vec![2] }, 4);
    sol(&mut st, a, 101, 9, SolverResult::Valid { data: vec![1, 2] }, 5);

    // only the runs of solver 7 contribute
    let of_seven = solution_hash_list(&st, 7);
    assert_eq!(of_seven.len(), 1);
    assert_eq!(st.solutions[of_seven[0]].sr_uuid, 100);

    let (idx, data) = fetch_instance(&st, a).unwrap();
    assert_eq!(st.instances[idx].iid, a);
    assert_eq!(data.as_slice(), b"p ds 3 2\n1 2\n2 3\n".as_slice());
    assert_eq!(fetch_instance(&st, 999).unwrap_err().kind, ErrorKind::NotFound);

    let (score, payload) = fetch_solution(&st, a, 7, 100).unwrap();
    assert_eq!(score, 1);
    assert_eq!(payload.as_slice(), b"[1]".as_slice());
    // the wrong solver for the run finds nothing
    assert!(fetch_solution(&st, a, 9, 100).is_err());
}

#[test]
fn per_instance_histogram_groups_scores() {
    let (mut st, a, _b, _c) = demo_store();
    sol(&mut st, a, 100, 7, SolverResult::Valid { data: vec![2] }, 4);
    sol(&mut st, a, 101, 7, SolverResult::Valid { data: vec![1, 2] }, 5);
    sol(&mut st, a, 103, 7, SolverResult::Valid { data: vec![2] }, 6);
    sol(&mut st, a, 102, 7, SolverResult::Timeout, 7);

    let hist = instance_score_histogram(&st, a);
    let mut entries: Vec<(Option<u32>, u64)> = hist.clone();
    entries.sort();
    assert_eq!(entries, vec![(None, 1), (Some(1), 2), (Some(2), 1)]);
}

#[test]
fn fetch_unsolved_prefers_the_smallest_open_instance() {
    let (mut st, a, b, _c) = demo_store();
    // every instance is open at first; the smallest one is offered
    let first = stride_core::runs::find_unsolved(&st).unwrap();
    assert_eq!(st.instances[first].iid, a);

    // once the small ones carry valid solutions, the large one is offered
    sol(&mut st, a, 100, 7, SolverResult::Valid { data: vec![2] }, 4);
    sol(&mut st, b, 100, 7, SolverResult::Valid { data: vec![2, 3] }, 5);
    let next = stride_core::runs::find_unsolved(&st).unwrap();
    assert_eq!(st.instances[next].nodes, 5);

    // a timeout leaves an instance open even though a row exists
    sol(&mut st, a, 101, 7, SolverResult::Timeout, 6);
    let reopened = stride_core::runs::find_unsolved(&st).unwrap();
    assert_eq!(st.instances[reopened].iid, a);
}

#[test]
fn tag_list_counts_instances() {
    let mut st = Store::new();
    st.tag_create(TagCreateRequest { name: b"alpha".to_vec(), description: Some(b"demo".to_vec()), style: 1 }).unwrap();
    st.tag_create(TagCreateRequest { name: b"beta".to_vec(), description: None, style: 2 }).unwrap();
    let mut req = InstanceUploadRequest {
        name: None,
        description: None,
        submitted_by: None,
        tags: Some(vec![b"alpha".to_vec()]),
        ignore_header: None,
        data: b"p ds 3 2\n1 2\n2 3\n".to_vec(),
    };
    st.upload_instance(req, 1).unwrap();
    req = InstanceUploadRequest {
        name: None,
        description: None,
        submitted_by: None,
        tags: Some(vec![b"alpha".to_vec()]),
        ignore_header: None,
        data: b"p ds 4 3\n1 2\n2 3\n3 4\n".to_vec(),
    };
    st.upload_instance(req, 2).unwrap();

    let tags = stride_core::runs::get_tag_list(&st);
    assert_eq!(tags.len(), 2);
    assert_eq!(tags[0].name, b"alpha".to_vec());
    assert_eq!(tags[0].num_instances, 2);
    assert_eq!(tags[1].name, b"beta".to_vec());
    assert_eq!(tags[1].num_instances, 0);
}

#[test]
fn max_values_summarize_columns() {
    let (mut st, a, b, _c) = demo_store();
    sol(&mut st, a, 100, 7, SolverResult::Valid { data: vec![2] }, 4);
    sol(&mut st, b, 100, 7, SolverResult::Valid { data: vec![2, 3] }, 5);

    let plain = compute_max_values(&st, &FilterOptions::default()).unwrap();
    assert_eq!(plain.nodes, Some(5));
    assert_eq!(plain.edges, Some(4));
    assert_eq!(plain.best_score, Some(2));
    assert!(plain.score.is_none());
    assert!(plain.score_diff.is_none());

    let mut opts = FilterOptions::default();
    opts.solver = Some(7);
    opts.run = Some(100);
    let overlay = compute_max_values(&st, &opts).unwrap();
    assert_eq!(overlay.score, Some(2));
    assert_eq!(overlay.score_diff, Some(0));
    // the aggregation joins the run's solutions: the 5-node instance the
    // run never answered does not contribute
    assert_eq!(overlay.nodes, Some(4));
}

#[test]
fn dimacs_file_from_instance_and_data() {
    let header = String::from("{\"iid\":1,\"name\":\"name\"}");
    let document = stride_core::runs::dimacs_file_from_instance_and_data(
        &header.into_bytes(),
        &b"HelloWorld".to_vec(),
    );
    let text = String::from_utf8(document).unwrap();
    let lines: Vec<&str> = text.lines().collect();
    assert_eq!(lines.len(), 2);
    assert!(lines[0].starts_with("c "));

    let meta: serde_json::Value = serde_json::from_str(&lines[0][2..]).unwrap();
    assert_eq!(meta["iid"], 1);
    assert_eq!(lines[1], "HelloWorld");
}
