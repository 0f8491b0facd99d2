use local_search::cluster_tabu;
use local_search::clustering::diameter;
use local_search::clustering::metrics;
use local_search::clustering::AbsDistance;
use local_search::clustering::MaxDiameterCost;

#[test]
fn test_clustering_with_diameter_cost() {
    let items: Vec<u32> = vec![1, 2, 3, 4, 5, 6, 7, 8, 9, 10];
    let n_clusters = 2;
    let max_iterations = 100;
    let stopping_cost = None;

    let mut clusters: Vec<Vec<u32>> = cluster_tabu(
        items,
        MaxDiameterCost {},
        n_clusters,
        max_iterations,
        stopping_cost,
    )
    .into_iter()
    .map(|mut cluster| {
        cluster.sort();
        cluster
    })
    .collect();
    clusters.sort();

    assert_eq!(clusters.len(), n_clusters);
    assert_eq!(clusters, vec![vec![1, 2, 3, 4, 5], vec![6, 7, 8, 9, 10]]);
}

#[test]
fn test_diameter_of_integer_vector_with_abs_cost() {
    let test_vec: Vec<u32> = vec![1, 2, 3, 4];

    assert_eq!(diameter(&test_vec, &AbsDistance {}).unwrap(), 3);
}

#[test]
fn test_diameter_of_integer_vector() {
    let test_vec: Vec<u32> = vec![1, 2, 3, 4];

    assert_eq!(metrics::diameter(&test_vec, &AbsDistance {}), 3);
}

#[test]
fn test_diameter_of_short_vectors_is_none() {
    let empty: Vec<u32> = vec![];
    let single: Vec<u32> = vec![9];

    assert_eq!(diameter(&empty, &AbsDistance {}), None);
    assert_eq!(diameter(&single, &AbsDistance {}), None);
    assert_eq!(metrics::diameter(&empty, &AbsDistance {}), 0);
}

#[test]
fn test_single_cluster_returns_all_items() {
    let items: Vec<u32> = vec![3, 1, 2];

    let clusters = cluster_tabu(items, MaxDiameterCost {}, 1, 100, None);

    assert_eq!(clusters.len(), 1);
    let mut group = clusters[0].clone();
    group.sort();
    assert_eq!(group, vec![1, 2, 3]);
}

#[test]
fn test_partition_covers_items_exactly() {
    let items: Vec<u32> = vec![1, 2, 3, 4, 5, 6, 7];

    let clusters = cluster_tabu(items, MaxDiameterCost {}, 3, 25, None);

    assert_eq!(clusters.len(), 3);
    let mut all: Vec<u32> = clusters.into_iter().flatten().collect();
    all.sort();
    assert_eq!(all, vec![1, 2, 3, 4, 5, 6, 7]);
}

#[test]
fn test_clustering_of_no_items_gives_empty_groups() {
    let items: Vec<u32> = vec![];

    let clusters = cluster_tabu(items, MaxDiameterCost {}, 2, 10, None);

    assert_eq!(clusters, vec![Vec::<u32>::new(), Vec::<u32>::new()]);
}
