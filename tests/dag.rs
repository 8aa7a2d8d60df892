use sync_engine::dag::VersionDag;

fn chain(n: u64) -> VersionDag {
    let mut d = VersionDag::new();
    for v in 1..=n {
        let parents = if v > 1 { vec![v - 1] } else { vec![] };
        d.add_node(v, format!("v{}", v), parents);
    }
    d
}

#[test]
fn head_tracks_greatest_version() {
    let mut d = VersionDag::new();
    assert_eq!(d.head(), None);
    d.add_node(3, "c".to_string(), vec![]);
    d.add_node(1, "a".to_string(), vec![]);
    assert_eq!(d.head(), Some(3));
    d.add_node(3, "c2".to_string(), vec![1]);
    assert_eq!(d.len(), 2);
    d.add_node_with_tombstone(4, "".to_string(), vec![3], true);
    assert_eq!(d.head(), Some(4));
}

#[test]
fn missing_versions_sorted_and_deduplicated() {
    let mut d = VersionDag::new();
    d.add_node(10, "x".to_string(), vec![7, 3]);
    d.add_node(11, "y".to_string(), vec![10, 3]);
    d.add_node(12, "z".to_string(), vec![11, 5, 7]);
    assert_eq!(d.find_missing_versions(), vec![3, 5, 7]);
    assert_eq!(chain(4).find_missing_versions(), Vec::<u64>::new());
}

#[test]
fn reconstruct_notes() {
    let mut d = VersionDag::new();
    d.add_node(1, "first".to_string(), vec![]);
    d.add_node(3, "third".to_string(), vec![2]);
    assert_eq!(
        d.reconstruct_missing_version(2).as_deref(),
        Some("[Reconstructed v2] between 'first' and 'third'")
    );
    assert_eq!(d.reconstruct_missing_version(9).as_deref(), Some("[Reconstructed v9] Successor of 'third'"));
    let mut lone = VersionDag::new();
    lone.add_node(1, "only".to_string(), vec![]);
    assert_eq!(lone.reconstruct_missing_version(2).as_deref(), Some("[Reconstructed v2] Successor of 'only'"));
    assert_eq!(lone.reconstruct_missing_version(0), None);
    let mut e = VersionDag::new();
    e.add_node(5, "five".to_string(), vec![4]);
    assert_eq!(e.reconstruct_missing_version(4).as_deref(), Some("[Reconstructed v4] Pre-cursor to 'five'"));
}

#[test]
fn timeline_merges_present_and_missing() {
    let mut d = VersionDag::new();
    d.add_node(1, "a".to_string(), vec![]);
    d.add_node(3, "c".to_string(), vec![2]);
    let t = d.get_reconstructed_timeline();
    assert_eq!(t.len(), 3);
    assert_eq!(t[0], (1, "a".to_string(), false));
    assert_eq!(t[1].0, 2);
    assert!(t[1].2);
    assert_eq!(t[2], (3, "c".to_string(), false));
}

#[test]
fn depth_gc_keeps_recent_chain() {
    let mut d = chain(10);
    assert_eq!(d.gc_depth_based(0), 0);
    assert_eq!(d.len(), 10);
    assert_eq!(d.gc_depth_based(3), 7);
    assert_eq!(d.len(), 3);
    assert_eq!(d.head(), Some(10));
    assert_eq!(d.find_missing_versions(), vec![7]);
    assert_eq!(d.gc_depth_based(1), 2);
    assert_eq!(d.len(), 1);
    let mut big = chain(5);
    assert_eq!(big.gc_depth_based(usize::MAX), 0);
}

#[test]
fn depth_gc_follows_both_parents() {
    let mut d = VersionDag::new();
    d.add_node(1, "a".to_string(), vec![]);
    d.add_node(2, "b".to_string(), vec![1]);
    d.add_node(3, "c".to_string(), vec![1]);
    d.add_node(4, "m".to_string(), vec![2, 3]);
    assert_eq!(d.gc_depth_based(2), 1);
    assert_eq!(d.len(), 3);
    assert_eq!(d.find_missing_versions(), vec![1]);
}
