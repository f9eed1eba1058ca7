use stride_core::canonical::normalize_dimacs;
use stride_core::text::hex_of_exec;

#[test]
fn canonical_bytes_and_hash() {
    let a = b"c demo\np ds 4 3\n1 2\n2 3\n3 4\n";
    let ci = normalize_dimacs(a.as_slice(), true).unwrap();
    assert_eq!(ci.nodes, 4);
    assert_eq!(ci.edges, 3);
    assert_eq!(ci.data.as_slice(), b"p ds 4 3\n1 2\n2 3\n3 4\n".as_slice());
    // the SHA-256 of the canonical bytes
    let hex = hex_of_exec(&ci.hash);
    assert_eq!(
        hex.as_slice(),
        b"05b276512344a7611fa9c6836eb943b716a4d1b0e05edd92c4da6aa20edabd54".as_slice()
    );
}

#[test]
fn canonical_insensitivity() {
    // duplicate edge, different order, a comment, extra whitespace
    let a = b"c demo\np ds 4 3\n1 2\n2 3\n3 4\n";
    let b = b"p ds 4 4\n4 3\n1 2\n1 2\n3 2\n";
    let ca = normalize_dimacs(a.as_slice(), true).unwrap();
    let cb = normalize_dimacs(b.as_slice(), false).unwrap();
    assert_eq!(ca.data, cb.data);
    assert_eq!(ca.hash, cb.hash);
    assert_eq!(ca.nodes, cb.nodes);
    assert_eq!(ca.edges, cb.edges);
}

#[test]
fn canonical_idempotence() {
    let inputs: [&[u8]; 3] = [
        b"c demo\np ds 4 3\n1 2\n2 3\n3 4\n",
        b"p x 9 4\n7 3\n3 7\n1 9\n2 2\n",
        b"p ds 5 2\n 4  5 \n1 4\n",
    ];
    for input in inputs {
        let once = normalize_dimacs(input, false).unwrap();
        let twice = normalize_dimacs(once.data.as_slice(), true).unwrap();
        assert_eq!(once.data, twice.data);
        assert_eq!(once.hash, twice.hash);
        assert_eq!(once.nodes, twice.nodes);
        assert_eq!(once.edges, twice.edges);
    }
}

#[test]
fn canonical_drops_self_loops_and_relabels() {
    // self-loop noise and unused vertex ids disappear
    let with_loop = b"p ds 9 3\n7 7\n2 5\n5 9\n";
    let ci = normalize_dimacs(with_loop.as_slice(), false).unwrap();
    assert_eq!(ci.nodes, 3);
    assert_eq!(ci.edges, 2);
    assert_eq!(ci.data.as_slice(), b"p ds 3 2\n1 2\n2 3\n".as_slice());

    let plain = b"p ds 3 2\n1 2\n2 3\n";
    let cp = normalize_dimacs(plain.as_slice(), true).unwrap();
    assert_eq!(ci.hash, cp.hash);
}

#[test]
fn empty_edge_set_is_rejected() {
    assert!(normalize_dimacs(b"p ds 1 0\n".as_slice(), true).is_err());
    assert!(normalize_dimacs(b"p ds 1 0\n".as_slice(), false).is_err());
}

#[test]
fn header_count_mismatch_is_rejected() {
    // three declared edges, but only two distinct ones after normalization
    let doubled = b"p ds 3 3\n1 2\n2 1\n2 3\n";
    assert!(normalize_dimacs(doubled.as_slice(), true).is_err());
    assert!(normalize_dimacs(doubled.as_slice(), false).is_ok());
}

#[test]
fn malformed_documents_are_rejected() {
    assert!(normalize_dimacs(b"no header".as_slice(), true).is_err());
    assert!(normalize_dimacs(b"p ds 3 1\nx y\n".as_slice(), true).is_err());
    assert!(normalize_dimacs(b"p ds 3 1\n1 7\n".as_slice(), true).is_err());
}
