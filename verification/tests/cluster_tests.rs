use grandstrat::clusters::{cluster_provinces, order_by_key_desc};
use grandstrat::labels::{label_tier, LabelTier};
use grandstrat::settlement::select_spaced;

fn matrix(n: usize, edges: &[(usize, usize)]) -> Vec<Vec<bool>> {
    let mut m = vec![vec![false; n]; n];
    for i in 0..n {
        m[i][i] = true;
    }
    for &(a, b) in edges {
        m[a][b] = true;
        m[b][a] = true;
    }
    m
}

#[test]
fn order_by_key_desc_is_stable() {
    assert_eq!(order_by_key_desc(&vec![3, 1, 3, 2]), vec![0, 2, 3, 1]);
    assert_eq!(order_by_key_desc(&vec![5, 5, 5]), vec![0, 1, 2]);
    assert_eq!(order_by_key_desc(&vec![1, 2, 3]), vec![2, 1, 0]);
    assert_eq!(order_by_key_desc(&vec![]), Vec::<usize>::new());
}

#[test]
fn clusters_are_components_largest_first() {
    let near = matrix(5, &[(0, 1), (1, 2), (3, 4)]);
    assert_eq!(cluster_provinces(&near), vec![vec![0, 1, 2], vec![3, 4]]);
}

#[test]
fn larger_later_landmass_comes_first() {
    let near = matrix(4, &[(1, 2), (2, 3)]);
    assert_eq!(cluster_provinces(&near), vec![vec![1, 2, 3], vec![0]]);
}

#[test]
fn equal_landmasses_keep_their_order() {
    let near = matrix(4, &[(0, 1), (2, 3)]);
    assert_eq!(cluster_provinces(&near), vec![vec![0, 1], vec![2, 3]]);
}

#[test]
fn cluster_lists_members_from_the_smallest() {
    let near = matrix(4, &[(0, 1), (0, 2), (2, 3)]);
    let clusters = cluster_provinces(&near);
    assert_eq!(clusters.len(), 1);
    assert_eq!(clusters[0][0], 0);
    let mut members = clusters[0].clone();
    members.sort();
    assert_eq!(members, vec![0, 1, 2, 3]);
}

#[test]
fn no_provinces_no_clusters() {
    let near: Vec<Vec<bool>> = Vec::new();
    assert!(cluster_provinces(&near).is_empty());
}

#[test]
fn isolated_provinces_are_their_own_clusters() {
    let near = matrix(3, &[]);
    assert_eq!(cluster_provinces(&near), vec![vec![0], vec![1], vec![2]]);
}

#[test]
fn spacing_drops_crowded_settlements() {
    let exempt = vec![false, false, true, false];
    let mut close = vec![vec![false; 4]; 4];
    close[1][0] = true;
    close[2][0] = true;
    close[3][2] = true;
    assert_eq!(select_spaced(&exempt, &close), vec![0, 2]);
}

#[test]
fn spacing_ignores_dropped_settlements() {
    let exempt = vec![false, false, false];
    let mut close = vec![vec![false; 3]; 3];
    close[1][0] = true;
    close[2][1] = true;
    assert_eq!(select_spaced(&exempt, &close), vec![0, 2]);
}

#[test]
fn spacing_keeps_everything_when_nothing_is_close() {
    let exempt = vec![false, false];
    let close = vec![vec![false; 2]; 2];
    assert_eq!(select_spaced(&exempt, &close), vec![0, 1]);
    assert_eq!(select_spaced(&Vec::new(), &Vec::new()), Vec::<usize>::new());
}

#[test]
fn label_tiers_by_size() {
    assert_eq!(label_tier(250), LabelTier::Continental);
    assert_eq!(label_tier(200), LabelTier::Continental);
    assert_eq!(label_tier(199), LabelTier::Large);
    assert_eq!(label_tier(80), LabelTier::Large);
    assert_eq!(label_tier(79), LabelTier::Regional);
    assert_eq!(label_tier(20), LabelTier::Regional);
    assert_eq!(label_tier(19), LabelTier::Minor);
    assert_eq!(label_tier(6), LabelTier::Minor);
    assert_eq!(label_tier(5), LabelTier::Micro);
    assert_eq!(label_tier(0), LabelTier::Micro);
}

#[test]
fn cluster_members_in_traversal_order() {
    // 0 is close to 1 and 3; 3 is close to 2. The traversal takes 0, finds
    // 1 and 3, then scans 3 (the last found) and finds 2.
    let near = matrix(4, &[(0, 1), (0, 3), (3, 2)]);
    assert_eq!(cluster_provinces(&near), vec![vec![0, 1, 3, 2]]);
    let near = matrix(5, &[(0, 4), (4, 1), (0, 2), (2, 3)]);
    assert_eq!(cluster_provinces(&near), vec![vec![0, 2, 4, 1, 3]]);
}
