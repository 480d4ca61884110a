use bier_rust::allocator::links_to_bp;
use bier_rust::render::{push_decimal, push_mask, router_config, write_bier_te_table, BuildError};
use bier_rust::tables::{bier_te_table, AllocationError};
use bier_rust::topology::{add_link, find_node, Node};

fn addresses(n: usize) -> Vec<Vec<u8>> {
    (0..n).map(|i| format!("a{}", i).into_bytes()).collect()
}

#[test]
fn decimal_digits() {
    let mut out = Vec::new();
    push_decimal(&mut out, 0);
    out.push(b' ');
    push_decimal(&mut out, 1234);
    out.push(b' ');
    push_decimal(&mut out, 10);
    assert_eq!(out, b"0 1234 10".to_vec());
}

#[test]
fn mask_highest_bit_first_without_leading_zeros() {
    let mut out = Vec::new();
    push_mask(&mut out, &vec![true, false, true, false, false]);
    assert_eq!(out, b"101".to_vec());
    let mut empty = Vec::new();
    push_mask(&mut empty, &vec![false, false]);
    assert!(empty.is_empty());
}

#[test]
fn router_file_bier_only() {
    let g: Vec<Vec<(usize, i32)>> = vec![
        vec![(1, 1), (2, 1)],
        vec![(0, 1), (3, 1)],
        vec![(0, 1), (3, 1)],
        vec![(1, 1), (2, 1), (4, 1)],
        vec![(3, 1)],
    ];
    let bp = links_to_bp(&g);
    let out = router_config(&g, &bp, &addresses(5), 0, false).unwrap();
    assert_eq!(String::from_utf8(out).unwrap(), "a0\n1\n11010 a1\n11100 a2\n");
}

#[test]
fn router_file_with_bier_te() {
    let g: Vec<Vec<(usize, i32)>> = vec![vec![(1, 1)], vec![(0, 1), (2, 1)], vec![(1, 1)]];
    let bp = links_to_bp(&g);
    let out = router_config(&g, &bp, &addresses(3), 1, true).unwrap();
    assert_eq!(
        String::from_utf8(out).unwrap(),
        "a1\n2\n1 a0\n100 a2\n5\n2\n11010\n2\n4 1 a0\n5 1 a2\n"
    );
}

#[test]
fn bier_te_section_alone() {
    let g: Vec<Vec<(usize, i32)>> = vec![vec![(1, 1)], vec![(0, 1)]];
    let bp = links_to_bp(&g);
    let t = bier_te_table(&g, 0, &bp).unwrap();
    let mut out = Vec::new();
    write_bier_te_table(&mut out, &t, 0, &addresses(2));
    assert_eq!(String::from_utf8(out).unwrap(), "3\n1\n101\n1\n3 1 a1\n");
}

#[test]
fn router_file_invalid_topology() {
    let g: Vec<Vec<(usize, i32)>> = vec![vec![(1, 0)], vec![(0, 0)]];
    let bp = links_to_bp(&g);
    assert_eq!(router_config(&g, &bp, &addresses(2), 0, false), Err(BuildError::InvalidTopology));
}

#[test]
fn router_file_allocation_error() {
    let g: Vec<Vec<(usize, i32)>> = vec![vec![(1, 1)], vec![(0, 1)]];
    let other: Vec<Vec<(usize, i32)>> = vec![vec![], vec![]];
    let bp = links_to_bp(&other);
    assert_eq!(
        router_config(&g, &bp, &addresses(2), 0, true),
        Err(BuildError::Allocation(AllocationError::UnregisteredLink(0, 1)))
    );
    assert!(router_config(&g, &bp, &addresses(2), 0, false).is_ok());
}

fn router(id: u32, name: &str) -> Node {
    Node { id, name: name.to_string(), address: format!("babe:{}::1", id), neighbours: Vec::new() }
}

#[test]
fn links_are_stored_at_both_ends() {
    let mut graph = vec![router(10, "r1"), router(20, "r2"), router(30, "r3")];
    add_link(&mut graph, 0, 1, 4);
    add_link(&mut graph, 2, 1, 7);
    assert_eq!(graph[0].neighbours, vec![(1, 4)]);
    assert_eq!(graph[1].neighbours, vec![(0, 4), (2, 7)]);
    assert_eq!(graph[2].neighbours, vec![(1, 7)]);
    assert_eq!(graph[1].id, 20);
    assert_eq!(graph[1].name, "r2");
    assert_eq!(graph[1].address, "babe:20::1");
}

#[test]
fn routers_found_by_name() {
    let graph = vec![router(10, "r1"), router(20, "r2")];
    assert_eq!(find_node(&graph, &"r2".to_string()), Some(1));
    assert_eq!(find_node(&graph, &"r9".to_string()), None);
}
