use hdqtsp_lehmer::sample::{check_limit, scores_every_index, IndexSample};
use hdqtsp_lehmer::stats::{tally, NodeMethod, NodeOutcome};

#[test]
fn check_limit_values() {
    assert_eq!(check_limit(5040, None), 5040);
    assert_eq!(check_limit(40320, None), 10000);
    assert_eq!(check_limit(40320, Some(50)), 50);
    assert!(scores_every_index(5040, None));
    assert!(!scores_every_index(40320, None));
    assert!(!scores_every_index(120, Some(100)));
    assert!(scores_every_index(100, Some(100)));
}

#[test]
fn index_sample_keeps_first_drawings() {
    let mut s = IndexSample::new(3);
    assert!(!s.is_done());
    assert!(!s.record(7));
    assert!(!s.record(7));
    assert!(!s.record(2));
    assert!(s.record(9));
    assert!(s.is_done());
    assert!(s.record(2));
    assert_eq!(s.indices(), vec![7, 2, 9]);
    assert!(IndexSample::new(0).is_done());
}

#[test]
fn tally_counts_nodes() {
    let outcomes = vec![
        NodeOutcome { success: true, method: NodeMethod::LehmerExact },
        NodeOutcome { success: true, method: NodeMethod::Trivial },
        NodeOutcome { success: false, method: NodeMethod::Other },
        NodeOutcome { success: true, method: NodeMethod::LehmerExact },
    ];
    let t = tally(&outcomes);
    assert_eq!((t.total, t.successful, t.lehmer_exact, t.trivial, t.failed), (4, 3, 2, 1, 1));
    let e = tally(&Vec::new());
    assert_eq!((e.total, e.successful, e.failed), (0, 0, 0));
}
