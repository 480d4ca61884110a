use bier_rust::allocator::links_to_bp;
use bier_rust::dijkstra::dijkstra;
use bier_rust::reachability::get_all_out_interfaces_to_destination;
use bier_rust::tables::{bier_entries, bier_table, bier_te_table, AllocationError, BierTeEntry};
use bier_rust::topology::{graph_node_to_usize, Node};

fn line_topology() -> Vec<Vec<(usize, i32)>> {
    vec![
        vec![(1, 1)],
        vec![(0, 1), (2, 1)],
        vec![(1, 1), (3, 1)],
        vec![(2, 1), (4, 1)],
        vec![(3, 1)],
    ]
}

fn diamond_topology() -> Vec<Vec<(usize, i32)>> {
    vec![
        vec![(1, 1), (2, 1)],
        vec![(0, 1), (3, 1)],
        vec![(0, 1), (3, 1)],
        vec![(1, 1), (2, 1), (4, 1)],
        vec![(3, 1)],
    ]
}

#[test]
fn test_get_all_out_interfaces_to_destination_fixed() {
    // Create a dummy graph and provide the predecessors list
    // It tests ECMP
    //    0
    //   / \
    //  1   2
    //   \ /
    //    3
    //    |
    //    4
    // Expect to get two output interfaces from 0 to 3
    let predecessors: Vec<Vec<usize>> = vec![vec![0], vec![0], vec![0], vec![1, 2], vec![3]];

    // From 0 to 1
    let mut output_interfaces = get_all_out_interfaces_to_destination(&predecessors, 0, 1);
    assert_eq!(output_interfaces.len(), 1);
    assert!(output_interfaces.contains(&1));

    // From 0 to 2
    output_interfaces = get_all_out_interfaces_to_destination(&predecessors, 0, 2);
    assert_eq!(output_interfaces.len(), 1);
    assert!(output_interfaces.contains(&2));

    // From 0 to 3
    output_interfaces = get_all_out_interfaces_to_destination(&predecessors, 0, 3);
    assert_eq!(output_interfaces.len(), 2);
    assert!(output_interfaces.contains(&1));
    assert!(output_interfaces.contains(&2));

    // From 0 to 4
    output_interfaces = get_all_out_interfaces_to_destination(&predecessors, 0, 4);
    assert_eq!(output_interfaces.len(), 2);
    assert!(output_interfaces.contains(&1));
    assert!(output_interfaces.contains(&2));
}

#[test]
fn next_hops_to_self_is_self() {
    let predecessors: Vec<Vec<usize>> = vec![vec![0], vec![0]];
    assert_eq!(get_all_out_interfaces_to_destination(&predecessors, 0, 0), vec![0]);
}

#[test]
fn next_hops_to_unreachable_is_empty() {
    let predecessors: Vec<Vec<usize>> = vec![vec![0], vec![0], vec![]];
    assert!(get_all_out_interfaces_to_destination(&predecessors, 0, 2).is_empty());
}

#[test]
fn line_topology_has_single_next_hop() {
    let g = line_topology();
    let p = dijkstra(&g, 0).unwrap();
    assert_eq!(get_all_out_interfaces_to_destination(&p, 0, 4), vec![1]);
}

#[test]
fn diamond_ecmp_propagates_past_merge() {
    let g = diamond_topology();
    let p = dijkstra(&g, 0).unwrap();
    assert_eq!(get_all_out_interfaces_to_destination(&p, 0, 3), vec![1, 2]);
    assert_eq!(get_all_out_interfaces_to_destination(&p, 0, 4), vec![1, 2]);
}

#[test]
fn three_routers_two_links_bits() {
    // A=0, B=1, C=2; links A-B and B-C.
    let g: Vec<Vec<(usize, i32)>> = vec![vec![(1, 1)], vec![(0, 1), (2, 1)], vec![(1, 1)]];
    let bp = links_to_bp(&g);
    assert_eq!(bp.nb_nodes, 3);
    assert_eq!(bp.router_bit(0), Some(0));
    assert_eq!(bp.router_bit(1), Some(1));
    assert_eq!(bp.router_bit(2), Some(2));
    assert_eq!(bp.router_bit(3), None);
    assert_eq!(bp.nb_links(), 2);
    assert_eq!(bp.nb_bits(), 5);
    assert_eq!(bp.link_bit(0, 1), Some(3));
    assert_eq!(bp.link_bit(1, 2), Some(4));
    assert_eq!(bp.link_bit(1, 0), bp.link_bit(0, 1));
    assert_eq!(bp.link_bit(2, 1), bp.link_bit(1, 2));
    assert_eq!(bp.link_bit(0, 2), None);
    assert_eq!(bp.links, vec![(0, 1), (1, 2)]);
}

#[test]
fn parallel_adjacencies_share_one_bit() {
    let g: Vec<Vec<(usize, i32)>> = vec![vec![(1, 1), (1, 5)], vec![(0, 1), (0, 5)]];
    let bp = links_to_bp(&g);
    assert_eq!(bp.links, vec![(0, 1)]);
    assert_eq!(bp.nb_bits(), 3);
}

#[test]
fn bier_masks_per_neighbor() {
    let g = diamond_topology();
    let t = bier_table(&g, 0).unwrap();
    assert_eq!(t.len(), 2);
    assert_eq!(t[0].neighbor, 1);
    assert_eq!(t[0].mask, vec![false, true, false, true, true]);
    assert_eq!(t[1].neighbor, 2);
    assert_eq!(t[1].mask, vec![false, false, true, true, true]);
}

#[test]
fn bier_masks_never_hold_own_bit() {
    let g = line_topology();
    let t = bier_table(&g, 2).unwrap();
    assert_eq!(t.len(), 2);
    assert_eq!(t[0].neighbor, 1);
    assert_eq!(t[0].mask, vec![true, true, false, false, false]);
    assert_eq!(t[1].neighbor, 3);
    assert_eq!(t[1].mask, vec![false, false, false, true, true]);
}

#[test]
fn bier_table_rejects_invalid_graph() {
    let g: Vec<Vec<(usize, i32)>> = vec![vec![(1, -1)], vec![(0, -1)]];
    assert!(bier_table(&g, 0).is_none());
}

#[test]
fn bier_table_twice_is_identical() {
    let g = diamond_topology();
    let a = bier_table(&g, 3).unwrap();
    let b = bier_table(&g, 3).unwrap();
    assert_eq!(a.len(), b.len());
    for i in 0..a.len() {
        assert_eq!(a[i].neighbor, b[i].neighbor);
        assert_eq!(a[i].mask, b[i].mask);
    }
}

#[test]
fn bier_entries_from_next_hops() {
    let next_hop: Vec<Vec<usize>> = vec![vec![0], vec![1], vec![1, 2]];
    let t = bier_entries(&next_hop, 0);
    assert_eq!(t.len(), 2);
    assert_eq!(t[0].neighbor, 1);
    assert_eq!(t[0].mask, vec![false, true, true]);
    assert_eq!(t[1].neighbor, 2);
    assert_eq!(t[1].mask, vec![false, false, true]);
}

#[test]
fn bier_te_table_of_middle_router() {
    let g: Vec<Vec<(usize, i32)>> = vec![vec![(1, 1)], vec![(0, 1), (2, 1)], vec![(1, 1)]];
    let bp = links_to_bp(&g);
    let t = bier_te_table(&g, 1, &bp).unwrap();
    assert_eq!(t.bitstring, vec![false, true, false, true, true]);
    assert_eq!(
        t.entries,
        vec![BierTeEntry { bit: 3, neighbor: 0 }, BierTeEntry { bit: 4, neighbor: 2 }]
    );
    let again = bier_te_table(&g, 1, &bp).unwrap();
    assert_eq!(again.bitstring, t.bitstring);
    assert_eq!(again.entries, t.entries);
}

#[test]
fn bier_te_table_unregistered_router() {
    let g: Vec<Vec<(usize, i32)>> = vec![vec![(1, 1)], vec![(0, 1)]];
    let small: Vec<Vec<(usize, i32)>> = vec![vec![]];
    let bp = links_to_bp(&small);
    assert!(matches!(bier_te_table(&g, 1, &bp), Err(AllocationError::UnregisteredRouter(1))));
}

#[test]
fn bier_te_table_unregistered_link() {
    let g: Vec<Vec<(usize, i32)>> = vec![vec![(1, 1)], vec![(0, 1)]];
    let no_links: Vec<Vec<(usize, i32)>> = vec![vec![], vec![]];
    let bp = links_to_bp(&no_links);
    assert!(matches!(bier_te_table(&g, 0, &bp), Err(AllocationError::UnregisteredLink(0, 1))));
}

#[test]
fn nodes_to_adjacency_lists() {
    let nodes = vec![
        Node { id: 7, name: "a".to_string(), address: "babe:1::1".to_string(), neighbours: vec![(1, 4)] },
        Node { id: 9, name: "b".to_string(), address: "babe:1::2".to_string(), neighbours: vec![(0, 4)] },
    ];
    assert_eq!(graph_node_to_usize(&nodes), vec![vec![(1, 4)], vec![(0, 4)]]);
}

#[test]
fn bit_positions_form_a_bijection() {
    let g = diamond_topology();
    let bp = links_to_bp(&g);
    assert_eq!(bp.nb_bits(), 5 + 5);
    let mut seen = vec![false; bp.nb_bits()];
    for r in 0..5 {
        let bit = bp.router_bit(r).unwrap();
        assert!(!seen[bit]);
        seen[bit] = true;
    }
    for (a, row) in g.iter().enumerate() {
        for &(b, _) in row {
            let bit = bp.link_bit(a, b).unwrap();
            assert_eq!(bp.link_bit(b, a), Some(bit));
            assert!(bit >= 5 && bit < 10);
        }
    }
    for &(a, b) in &bp.links {
        let bit = bp.link_bit(a, b).unwrap();
        assert!(!seen[bit]);
        seen[bit] = true;
    }
    assert!(seen.iter().all(|s| *s));
}
