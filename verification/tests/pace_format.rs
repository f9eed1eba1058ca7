use stride_core::graph::Edge;
use stride_core::instance_reader::PaceReader;
use stride_core::instance_writer::pace_writer;
use stride_core::solution::{Solution, SolutionReader};
use stride_core::text::hex_of_exec;

fn collect_edges(mut reader: PaceReader) -> Vec<Edge> {
    let mut edges = Vec::new();
    loop {
        match reader.next_edge() {
            Ok(Some(e)) => edges.push(e),
            Ok(None) => break,
            Err(e) => panic!("unexpected edge error: {}", e.message),
        }
    }
    edges
}

#[test]
fn test_success() {
    const DEMO_FILE: &str =
        "c TEST\n p  deMo 10  9 \n1 2\nc TEST\n2 3\n3 4\n4 5\n5 6\n6 7\n7 8\n8 9\n9 10";
    let pace_reader = PaceReader::try_new(DEMO_FILE.as_bytes()).unwrap();

    assert_eq!(pace_reader.number_of_nodes(), 10);
    assert_eq!(pace_reader.number_of_edges(), 9);
    assert_eq!(pace_reader.problem_id().as_slice(), b"deMo");

    let edges = collect_edges(pace_reader);
    assert_eq!(
        edges,
        vec![
            Edge(0, 1),
            Edge(1, 2),
            Edge(2, 3),
            Edge(3, 4),
            Edge(4, 5),
            Edge(5, 6),
            Edge(6, 7),
            Edge(7, 8),
            Edge(8, 9)
        ]
    );
}

#[test]
fn instance_writer_transcribe() {
    let problem_id = b"test".to_vec();
    let mut edges = vec![
        Edge(0, 1),
        Edge(1, 2),
        Edge(2, 3),
        Edge(3, 4),
        Edge(4, 1),
        Edge(4, 0),
        Edge(0, 1),
    ];

    let (n, m, buffer) = pace_writer(&problem_id, edges.clone()).unwrap();

    assert_eq!(n, 5);
    assert_eq!(m, 6);

    // read back the written instance
    let reader = PaceReader::try_new(buffer.as_slice()).unwrap();

    assert_eq!(reader.problem_id().as_slice(), b"test");
    assert_eq!(reader.number_of_nodes(), n);
    assert_eq!(reader.number_of_edges(), m);

    edges.sort();
    edges.dedup();

    let read_edges = collect_edges(reader);
    assert_eq!(edges, read_edges);
}

#[test]
fn solution_reader_legal() {
    let data = "5\n1\n2\n3\n4\n6\n";
    let mut reader = SolutionReader::try_new(data.as_bytes()).unwrap();
    assert_eq!(reader.solution_size(), 5);
    let mut result = Vec::new();
    while let Some(v) = reader.next_node().unwrap() {
        result.push(v);
    }
    assert_eq!(result, vec![0, 1, 2, 3, 5]);
}

#[test]
fn solution_reader_with_comment() {
    let data = "c Test\n5\n1\n2\ncBla\n3\n4\n5\n";
    let mut reader = SolutionReader::try_new(data.as_bytes()).unwrap();
    let mut result = Vec::new();
    while let Some(v) = reader.next_node().unwrap() {
        result.push(v);
    }
    assert_eq!(result, vec![0, 1, 2, 3, 4]);
}

#[test]
fn solution_reader_illegal() {
    let data = "5\n1\n2\na\n1 2\n3\n";
    let mut reader = SolutionReader::try_new(data.as_bytes()).unwrap();

    assert_eq!(reader.next_node().unwrap().unwrap(), 0);
    assert_eq!(reader.next_node().unwrap().unwrap(), 1);
    assert!(reader.next_node().is_err());
    assert!(reader.next_node().is_err());
    assert_eq!(reader.next_node().unwrap().unwrap(), 2);
    assert!(reader.next_node().unwrap().is_none());
    assert!(reader.next_node().unwrap().is_none());
}

#[test]
fn transcribe() {
    for n in 1..100u32 {
        let input: Vec<u32> = (0..n).rev().collect();
        let ref_solution = Solution { solution: input.clone() };

        let buffer = ref_solution.write().unwrap();

        let read_back_solution = Solution::read(buffer.as_slice(), Some(n)).unwrap();

        let mut expected = input.clone();
        expected.reverse();

        assert_eq!(read_back_solution.solution(), &expected);
    }
}

#[test]
fn test_domset_verifier() {
    let edges = vec![Edge(0, 1), Edge(2, 3)];

    assert!(!Solution { solution: vec![0] }
        .valid_domset_for_instance(4, &edges)
        .unwrap());

    assert!(Solution { solution: vec![0, 2] }
        .valid_domset_for_instance(4, &edges)
        .unwrap());
}

#[test]
fn digest_matches_python() {
    let solution = Solution::from_1indexed_vec((1..10).collect(), None).unwrap();
    let digest = solution.compute_digest();
    let hex = hex_of_exec(&digest);
    assert_eq!(hex.as_slice(), b"89d9014041ecdcfe552d725a76a07395d272bded".as_slice());
}

#[test]
fn digest_is_order_insensitive() {
    let a = Solution::from_0indexed_vec(vec![4, 1, 7, 2]);
    let b = Solution::from_0indexed_vec(vec![2, 7, 1, 4, 4]);
    assert_eq!(a.compute_digest(), b.compute_digest());
}

#[test]
fn verifier_matches_domination_exactly() {
    // a path on three nodes: 0 - 1 - 2
    let edges = vec![Edge(0, 1), Edge(1, 2)];
    assert!(Solution { solution: vec![1, 2] }
        .valid_domset_for_instance(3, &edges)
        .unwrap());
    assert!(Solution { solution: vec![1] }
        .valid_domset_for_instance(3, &edges)
        .unwrap());
    // an endpoint covers itself and the centre, but not the far end
    assert!(!Solution { solution: vec![0] }
        .valid_domset_for_instance(3, &edges)
        .unwrap());
    assert!(!Solution { solution: vec![2] }
        .valid_domset_for_instance(3, &edges)
        .unwrap());
}

#[test]
fn verifier_rejects_out_of_range() {
    let edges = vec![Edge(0, 5)];
    // an edge endpoint beyond the node count is refused
    assert!(Solution { solution: vec![0] }
        .valid_domset_for_instance(3, &edges)
        .is_err());
    // a set member beyond the node count is refused
    let small = vec![Edge(0, 1)];
    assert!(Solution { solution: vec![9] }
        .valid_domset_for_instance(2, &small)
        .is_err());
}

#[test]
fn one_indexed_conversion_checks_range() {
    assert!(Solution::from_1indexed_vec(vec![0], None).is_err());
    assert!(Solution::from_1indexed_vec(vec![1, 4], Some(3)).is_err());
    let s = Solution::from_1indexed_vec(vec![1, 3], Some(3)).unwrap();
    assert_eq!(s.solution, vec![0, 2]);
    assert_eq!(s.take_1indexed_solution(), vec![1, 3]);
}

#[test]
fn reader_rejects_malformed_headers() {
    assert!(PaceReader::try_new(b"".as_slice()).is_err());
    assert!(PaceReader::try_new(b"c only comments\n".as_slice()).is_err());
    assert!(PaceReader::try_new(b"q ds 3 2\n".as_slice()).is_err());
    assert!(PaceReader::try_new(b"p ds 3\n".as_slice()).is_err());
    assert!(PaceReader::try_new(b"p ds 3 2 7\n".as_slice()).is_err());
    assert!(PaceReader::try_new(b"p ds x 2\n".as_slice()).is_err());
}

#[test]
fn reader_rejects_out_of_range_edges() {
    let mut reader = PaceReader::try_new(b"p ds 3 2\n1 4\n".as_slice()).unwrap();
    assert!(reader.next_edge().is_err());
    let mut reader2 = PaceReader::try_new(b"p ds 3 2\n0 2\n".as_slice()).unwrap();
    assert!(reader2.next_edge().is_err());
}

#[test]
fn edge_reader_recovers_nothing_after_an_error() {
    // the malformed line stays at the head: the reader aborts there
    let mut reader = PaceReader::try_new(b"p ds 3 3\nc note\nx y\n1 2\n".as_slice()).unwrap();
    assert!(reader.next_edge().is_err());
    assert!(reader.next_edge().is_err());
}

#[test]
fn empty_solution_is_not_written() {
    let s = Solution { solution: vec![] };
    assert!(s.write().is_err());
}
