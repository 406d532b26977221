use mst_cluster::Error;
use mst_cluster::centroid::create_midpoint_element;
use mst_cluster::codec::str_to_number;
use mst_cluster::graph::build_complete_graph;
use mst_cluster::lookup::get_cluster_of;
use mst_cluster::mst::minimum_spanning_tree;
use mst_cluster::pipeline::cluster_records;
use mst_cluster::prune::prune;

fn sample_records() -> Vec<Vec<u8>> {
    ["00", "01", "10", "ff", "fe"].iter().map(|s| str_to_number(s).unwrap()).collect()
}

#[test]
fn two_clusters_split_near_from_far() {
    let records = sample_records();
    let clusters = cluster_records(&records, 2).unwrap();
    assert_eq!(
        clusters,
        vec![
            vec![vec![0u8, 0], vec![0u8, 1], vec![1u8, 0]],
            vec![vec![15u8, 15], vec![15u8, 14]],
        ]
    );
}

#[test]
fn midpoints_of_the_two_clusters() {
    let records = sample_records();
    let clusters = cluster_records(&records, 2).unwrap();
    // Means are (1/3, 1/3) and (15, 14.5); rounding is half up.
    assert_eq!(create_midpoint_element(&clusters[0]), vec![0u8, 0]);
    assert_eq!(create_midpoint_element(&clusters[1]), vec![15u8, 15]);
}

#[test]
fn assignment_indices_cover_every_record() {
    let records = sample_records();
    let clusters = cluster_records(&records, 2).unwrap();
    let expect = [0usize, 0, 0, 1, 1];
    for (rec, want) in records.iter().zip(expect.iter()) {
        assert_eq!(get_cluster_of(rec, &clusters).unwrap(), *want);
    }
}

#[test]
fn one_cluster_holds_the_whole_input() {
    let records = sample_records();
    let clusters = cluster_records(&records, 1).unwrap();
    assert_eq!(clusters, vec![records.clone()]);
}

#[test]
fn as_many_clusters_as_records_gives_singletons() {
    let records = sample_records();
    let clusters = cluster_records(&records, 5).unwrap();
    let want: Vec<Vec<Vec<u8>>> = records.iter().map(|r| vec![r.clone()]).collect();
    assert_eq!(clusters, want);
}

#[test]
fn zero_clusters_is_rejected() {
    let records = sample_records();
    match cluster_records(&records, 0) {
        Err(Error::InvalidClusterCount { k, n }) => {
            assert_eq!(k, 0);
            assert_eq!(n, 5);
        },
        other => panic!("expected an invalid cluster count, got {:?}", other),
    }
}

#[test]
fn more_clusters_than_records_is_rejected() {
    let records = sample_records();
    assert!(matches!(
        cluster_records(&records, 6),
        Err(Error::InvalidClusterCount { k: 6, n: 5 })
    ));
}

#[test]
fn empty_input_rejects_any_cluster_count() {
    let records: Vec<Vec<u8>> = Vec::new();
    assert!(matches!(cluster_records(&records, 1), Err(Error::InvalidClusterCount { k: 1, n: 0 })));
}

#[test]
fn spanning_tree_has_one_less_edge_than_nodes() {
    let records = sample_records();
    let g = build_complete_graph(&records);
    assert_eq!(g.edges.len(), 10);
    let t = minimum_spanning_tree(&g);
    assert_eq!(t.nodes.len(), 5);
    assert_eq!(t.edges.len(), 4);
}

#[test]
fn pruning_removes_the_heaviest_edges() {
    let records = sample_records();
    let g = build_complete_graph(&records);
    let t = minimum_spanning_tree(&g);
    let p = prune(&t, 3).unwrap();
    assert_eq!(p.edges.len(), 2);
    let total: u128 = p.edges.iter().map(|e| e.w).sum();
    let kept_min: u128 = {
        let mut ws: Vec<u128> = t.edges.iter().map(|e| e.w).collect();
        ws.sort();
        ws[..2].iter().sum()
    };
    assert_eq!(total, kept_min);
}

#[test]
fn prune_validates_the_cluster_count() {
    let records = sample_records();
    let g = build_complete_graph(&records);
    let t = minimum_spanning_tree(&g);
    assert!(matches!(prune(&t, 0), Err(Error::InvalidClusterCount { k: 0, n: 5 })));
    assert!(matches!(prune(&t, 6), Err(Error::InvalidClusterCount { k: 6, n: 5 })));
}

#[test]
fn lookup_misses_give_record_not_found() {
    let records = sample_records();
    let clusters = cluster_records(&records, 2).unwrap();
    let stranger = vec![9u8, 9];
    assert!(matches!(get_cluster_of(&stranger, &clusters), Err(Error::RecordNotFound)));
}

#[test]
fn midpoint_rounds_half_up() {
    assert_eq!(create_midpoint_element(&vec![vec![0u8], vec![1u8]]), vec![1u8]);
    assert_eq!(create_midpoint_element(&vec![vec![1u8], vec![2u8]]), vec![2u8]);
    assert_eq!(create_midpoint_element(&vec![vec![0u8], vec![0u8], vec![1u8]]), vec![0u8]);
    assert_eq!(create_midpoint_element(&vec![vec![15u8, 14]]), vec![15u8, 14]);
}

#[test]
fn duplicate_records_stay_together() {
    let records = vec![vec![0u8, 0], vec![0u8, 0], vec![15u8, 15]];
    let clusters = cluster_records(&records, 2).unwrap();
    assert_eq!(clusters, vec![vec![vec![0u8, 0], vec![0u8, 0]], vec![vec![15u8, 15]]]);
}

#[test]
fn zero_length_records_cluster_degenerately() {
    // Empty lines are a degenerate but uniform input: all distances are 0.
    let records = vec![Vec::<u8>::new(), Vec::<u8>::new()];
    let clusters = cluster_records(&records, 1).unwrap();
    assert_eq!(clusters, vec![vec![Vec::<u8>::new(), Vec::<u8>::new()]]);
    assert_eq!(create_midpoint_element(&clusters[0]), Vec::<u8>::new());
}

#[test]
fn a_single_record_is_its_own_cluster() {
    let records = vec![str_to_number("a").unwrap()];
    let clusters = cluster_records(&records, 1).unwrap();
    assert_eq!(clusters, vec![vec![vec![10u8]]]);
    assert_eq!(create_midpoint_element(&clusters[0]), vec![10u8]);
    assert_eq!(get_cluster_of(&vec![10u8], &clusters).unwrap(), 0);
}
