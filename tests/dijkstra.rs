use bier_rust::dijkstra::dijkstra;

#[test]
fn test_dijkstra_dummy() {
    let mut v: Vec<Vec<(usize, i32)>> = Vec::new();
    v.push(vec![(1, 1)]);
    v.push(vec![(0, 1)]);
    let start: usize = 0;
    let next_hop = dijkstra(&v, start);
    assert!(next_hop.is_some());
    let nh_unw = next_hop.unwrap();
    assert!(!nh_unw[0].is_empty());
    assert!(!nh_unw[1].is_empty());
    assert!(nh_unw.get(0).is_some());
    assert_eq!(nh_unw.get(0).unwrap().len(), 1);
    assert!(nh_unw.get(1).is_some());
    assert_eq!(nh_unw.get(1).unwrap().len(), 1);

    assert_eq!(nh_unw.get(0).unwrap()[0], 0);
    assert_eq!(nh_unw.get(1).unwrap()[0], 0);
}

#[test]
fn test_dijkstra_medium_topo() {
    let mut v: Vec<Vec<(usize, i32)>> = Vec::with_capacity(5);
    v.push(vec![(1, 1), (2, 1)]);
    v.push(vec![(0, 1), (3, 1)]);
    v.push(vec![(0, 1), (3, 2)]);
    v.push(vec![(1, 1), (2, 2), (4, 1)]);
    v.push(vec![(3, 1)]);

    let start: usize = 1;
    let next_hop = dijkstra(&v, start);
    assert!(next_hop.is_some());
    let nh_unw = next_hop.unwrap();

    let len_paths: Vec<usize> = vec![1; 5];
    let true_next_hops: Vec<usize> = vec![1, 1, 0, 1, 3];

    for i in 0..5 {
        assert!(!nh_unw[i].is_empty());
        assert!(nh_unw.get(i).is_some());
        assert_eq!(nh_unw.get(i).unwrap().len(), len_paths[i]);
        assert_eq!(nh_unw.get(i).unwrap()[0], true_next_hops[i]);
    }
}

#[test]
fn test_dijkstra_medium_topo_ecmp() {
    let mut v: Vec<Vec<(usize, i32)>> = Vec::with_capacity(5);
    v.push(vec![(1, 1), (2, 1)]);
    v.push(vec![(0, 1), (3, 1)]);
    v.push(vec![(0, 1), (3, 1)]);
    v.push(vec![(1, 1), (2, 1), (4, 1)]);
    v.push(vec![(3, 1)]);

    let start: usize = 0;
    let next_hop = dijkstra(&v, start);
    assert!(next_hop.is_some());
    let nh_unw = next_hop.unwrap();

    let len_paths: Vec<usize> = vec![1; 5];
    let true_next_hops: Vec<usize> = vec![0, 0, 0, 0, 3];

    for i in 0..5 {
        assert!(!nh_unw[i].is_empty());
        assert!(nh_unw.get(i).is_some());
        if i == 3 {
            continue; // We will test 3 later
        }
        assert_eq!(nh_unw.get(i).unwrap().len(), len_paths[i]);
        assert_eq!(nh_unw.get(i).unwrap()[0], true_next_hops[i]);
    }

    // Test 3, we should have ECMP there
    assert_eq!(nh_unw.get(3).unwrap().len(), 2);
    assert!(nh_unw.get(3).unwrap().contains(&1));
    assert!(nh_unw.get(3).unwrap().contains(&2));
}

#[test]
fn dijkstra_rejects_non_positive_metric() {
    let v: Vec<Vec<(usize, i32)>> = vec![vec![(1, 0)], vec![(0, 0)]];
    assert!(dijkstra(&v, 0).is_none());
}

#[test]
fn dijkstra_rejects_unknown_peer() {
    let v: Vec<Vec<(usize, i32)>> = vec![vec![(5, 1)], vec![(0, 1)]];
    assert!(dijkstra(&v, 0).is_none());
}

#[test]
fn dijkstra_unreachable_router_has_no_predecessor() {
    let v: Vec<Vec<(usize, i32)>> = vec![vec![(1, 3)], vec![(0, 3)], vec![]];
    let p = dijkstra(&v, 0).unwrap();
    assert_eq!(p[0], vec![0]);
    assert_eq!(p[1], vec![0]);
    assert!(p[2].is_empty());
}

#[test]
fn dijkstra_prefers_cheaper_longer_path() {
    // 0-1 costs 10; 0-2-1 costs 2 + 3.
    let v: Vec<Vec<(usize, i32)>> = vec![
        vec![(1, 10), (2, 2)],
        vec![(0, 10), (2, 3)],
        vec![(0, 2), (1, 3)],
    ];
    let p = dijkstra(&v, 0).unwrap();
    assert_eq!(p[1], vec![2]);
    assert_eq!(p[2], vec![0]);
}
