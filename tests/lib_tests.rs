use clpsr::{
    find_covering_supernet, merge_ipv4_nets, network_address_count, network_covers,
    network_overlap, parse_ipv4_nets, remove_covered_nets, sort_and_dedup, try_merge_exact, Cidr,
};

fn lines(input: &str) -> Vec<String> {
    input.lines().map(String::from).collect()
}

// ========== parse_ipv4_nets tests ==========

#[test]
fn parse_ipv4_nets_parses_valid_cidrs() {
    let input = "10.0.0.0/24\n192.168.1.0/24\n172.16.0.0/16";
    let result = parse_ipv4_nets(&lines(input)).unwrap();

    assert_eq!(result.len(), 3);
    assert_eq!(result[0], "10.0.0.0/24".parse::<Cidr>().unwrap());
    assert_eq!(result[1], "192.168.1.0/24".parse::<Cidr>().unwrap());
    assert_eq!(result[2], "172.16.0.0/16".parse::<Cidr>().unwrap());
}

#[test]
fn parse_ipv4_nets_ignores_empty_lines() {
    let input = "10.0.0.0/24\n\n192.168.1.0/24\n  \n\t\n172.16.0.0/16";
    let result = parse_ipv4_nets(&lines(input)).unwrap();

    assert_eq!(result.len(), 3);
}

#[test]
fn parse_ipv4_nets_trims_whitespace() {
    let input = "  10.0.0.0/24  \n\t192.168.1.0/24\t";
    let result = parse_ipv4_nets(&lines(input)).unwrap();

    assert_eq!(result.len(), 2);
    assert_eq!(result[0], "10.0.0.0/24".parse::<Cidr>().unwrap());
    assert_eq!(result[1], "192.168.1.0/24".parse::<Cidr>().unwrap());
}

#[test]
fn parse_ipv4_nets_returns_error_for_invalid_cidr() {
    let input = "10.0.0.0/24\ninvalid\n192.168.1.0/24";
    let result = parse_ipv4_nets(&lines(input));

    assert!(result.is_err());
    assert!(result.unwrap_err().contains("Line 2"));
}

#[test]
fn parse_ipv4_nets_handles_empty_input() {
    let input = "";
    let result = parse_ipv4_nets(&lines(input)).unwrap();

    assert_eq!(result.len(), 0);
}

#[test]
fn parse_ipv4_nets_handles_only_empty_lines() {
    let input = "\n\n  \n\t\n";
    let result = parse_ipv4_nets(&lines(input)).unwrap();

    assert_eq!(result.len(), 0);
}

#[test]
fn parse_ipv4_nets_handles_malformed_ip() {
    let input = "10.0.0.0/24\n999.999.999.999/24\n192.168.1.0/24";
    let result = parse_ipv4_nets(&lines(input));

    assert!(result.is_err());
    assert!(result.unwrap_err().contains("Line 2"));
}

#[test]
fn parse_ipv4_nets_handles_invalid_prefix_length() {
    let input = "10.0.0.0/24\n192.168.1.0/33\n172.16.0.0/16";
    let result = parse_ipv4_nets(&lines(input));

    assert!(result.is_err());
    assert!(result.unwrap_err().contains("Line 2"));
}

// ========== merge_ipv4_nets tests ==========

#[test]
fn merges_adjacent_subnets() {
    let nets = vec![
        "10.10.0.0/24".parse::<Cidr>().unwrap(),
        "10.10.1.0/24".parse::<Cidr>().unwrap(),
    ];

    let merged = merge_ipv4_nets(nets, 0);

    assert_eq!(merged, vec!["10.10.0.0/23".parse::<Cidr>().unwrap()]);
}

#[test]
fn retains_non_mergeable_ranges() {
    let nets = vec![
        "192.168.1.0/24".parse::<Cidr>().unwrap(),
        "192.168.3.0/24".parse::<Cidr>().unwrap(),
        "192.168.4.0/24".parse::<Cidr>().unwrap(),
    ];

    let merged = merge_ipv4_nets(nets, 0);

    assert_eq!(
        merged,
        vec![
            "192.168.1.0/24".parse::<Cidr>().unwrap(),
            "192.168.3.0/24".parse::<Cidr>().unwrap(),
            "192.168.4.0/24".parse::<Cidr>().unwrap(),
        ]
    );
}

#[test]
fn deduplicates_and_merges_iteratively() {
    let nets = vec![
        "10.0.0.0/24".parse::<Cidr>().unwrap(),
        "10.0.1.0/24".parse::<Cidr>().unwrap(),
        "10.0.2.0/24".parse::<Cidr>().unwrap(),
        "10.0.3.0/24".parse::<Cidr>().unwrap(),
        "10.0.0.0/24".parse::<Cidr>().unwrap(),
    ];

    let merged = merge_ipv4_nets(nets, 0);

    assert_eq!(merged, vec!["10.0.0.0/22".parse::<Cidr>().unwrap()]);
}

#[test]
fn removes_covered_subnets() {
    let nets = vec![
        "10.0.0.0/23".parse::<Cidr>().unwrap(),
        "10.0.0.0/24".parse::<Cidr>().unwrap(),
        "10.0.1.0/24".parse::<Cidr>().unwrap(),
    ];

    let merged = merge_ipv4_nets(nets, 0);

    assert_eq!(merged, vec!["10.0.0.0/23".parse::<Cidr>().unwrap()]);
}

#[test]
fn merges_largest_adjacent_prefixes() {
    let nets = vec![
        "0.0.0.0/1".parse::<Cidr>().unwrap(),
        "128.0.0.0/1".parse::<Cidr>().unwrap(),
    ];

    let merged = merge_ipv4_nets(nets, 0);

    assert_eq!(merged, vec!["0.0.0.0/0".parse::<Cidr>().unwrap()]);
}

#[test]
fn tolerance_allows_non_adjacent_merge() {
    // Two /24 networks separated by one /24 gap
    // Without tolerance: cannot merge
    // With tolerance >= 256: can merge into /22 (covers 4 /24s, adds 2 /24s = 512 addresses)
    let nets = vec![
        "10.0.0.0/24".parse::<Cidr>().unwrap(),
        "10.0.2.0/24".parse::<Cidr>().unwrap(),
    ];

    // Without tolerance, should not merge
    let merged_no_tol = merge_ipv4_nets(nets.clone(), 0);
    assert_eq!(merged_no_tol.len(), 2);

    // With tolerance >= 512, should merge
    let merged_with_tol = merge_ipv4_nets(nets, 512);
    assert_eq!(merged_with_tol.len(), 1);
    assert_eq!(merged_with_tol[0].prefix_len(), 22);
}

#[test]
fn tolerance_rejects_merge_exceeding_budget() {
    // Two /24 networks separated by one /24 gap
    // Merging into /22 adds 512 addresses
    let nets = vec![
        "10.0.0.0/24".parse::<Cidr>().unwrap(),
        "10.0.2.0/24".parse::<Cidr>().unwrap(),
    ];

    // With tolerance < 512, should not merge
    let merged = merge_ipv4_nets(nets, 256);
    assert_eq!(merged.len(), 2);
}

#[test]
fn tolerance_respects_exact_merge_preference() {
    // Adjacent networks should merge exactly (0 extra addresses) even with tolerance
    let nets = vec![
        "10.0.0.0/24".parse::<Cidr>().unwrap(),
        "10.0.1.0/24".parse::<Cidr>().unwrap(),
    ];

    let merged = merge_ipv4_nets(nets, 1000);
    assert_eq!(merged.len(), 1);
    assert_eq!(merged[0].prefix_len(), 23);
}

#[test]
fn tolerance_handles_overlapping_networks() {
    // Networks that overlap should account for overlap correctly
    let nets = vec![
        "10.0.0.0/23".parse::<Cidr>().unwrap(), // 10.0.0.0 - 10.0.1.255
        "10.0.1.0/24".parse::<Cidr>().unwrap(), // 10.0.1.0 - 10.0.1.255 (overlaps)
    ];

    // Should remove covered subnet regardless of tolerance
    let merged = merge_ipv4_nets(nets, 0);
    assert_eq!(merged.len(), 1);
    assert_eq!(merged[0].prefix_len(), 23);
}

#[test]
fn tolerance_accumulates_across_iterations() {
    // Test that tolerance is applied per merge, not globally
    // 10.0.0.0/24, 10.0.2.0/24, 10.0.4.0/24
    // First iteration: might merge 0-2 into /22 (adds 512), then 2-4 into /22 (adds 512)
    // With tolerance 512, only one merge should happen
    let nets = vec![
        "10.0.0.0/24".parse::<Cidr>().unwrap(),
        "10.0.2.0/24".parse::<Cidr>().unwrap(),
        "10.0.4.0/24".parse::<Cidr>().unwrap(),
    ];

    // With tolerance 512, should merge one pair
    let merged = merge_ipv4_nets(nets, 512);
    // Should have 2 networks (one merged pair + one remaining)
    assert_eq!(merged.len(), 2);
}

#[test]
fn merge_ipv4_nets_handles_empty_input() {
    let nets = vec![];
    let merged = merge_ipv4_nets(nets, 0);
    assert_eq!(merged.len(), 0);
}

#[test]
fn merge_ipv4_nets_handles_single_network() {
    let nets = vec!["10.0.0.0/24".parse::<Cidr>().unwrap()];
    let merged = merge_ipv4_nets(nets, 0);
    assert_eq!(merged.len(), 1);
    assert_eq!(merged[0], "10.0.0.0/24".parse::<Cidr>().unwrap());
}

#[test]
fn merge_ipv4_nets_handles_unsorted_input() {
    let nets = vec![
        "10.0.2.0/24".parse::<Cidr>().unwrap(),
        "10.0.0.0/24".parse::<Cidr>().unwrap(),
        "10.0.1.0/24".parse::<Cidr>().unwrap(),
    ];
    let merged = merge_ipv4_nets(nets, 0);
    // 10.0.0.0/24 and 10.0.1.0/24 merge into 10.0.0.0/23
    // 10.0.2.0/24 remains separate (not adjacent to the /23)
    assert_eq!(merged.len(), 2);
    assert_eq!(merged[0], "10.0.0.0/23".parse::<Cidr>().unwrap());
    assert_eq!(merged[1], "10.0.2.0/24".parse::<Cidr>().unwrap());
}

#[test]
fn merge_ipv4_nets_handles_multiple_adjacent_groups() {
    let nets = vec![
        "10.0.0.0/24".parse::<Cidr>().unwrap(),
        "10.0.1.0/24".parse::<Cidr>().unwrap(),
        "10.0.4.0/24".parse::<Cidr>().unwrap(),
        "10.0.5.0/24".parse::<Cidr>().unwrap(),
    ];
    let merged = merge_ipv4_nets(nets, 0);
    assert_eq!(merged.len(), 2);
    assert_eq!(merged[0], "10.0.0.0/23".parse::<Cidr>().unwrap());
    assert_eq!(merged[1], "10.0.4.0/23".parse::<Cidr>().unwrap());
}

#[test]
fn merge_ipv4_nets_handles_nested_subnets() {
    let nets = vec![
        "10.0.0.0/16".parse::<Cidr>().unwrap(),
        "10.0.0.0/24".parse::<Cidr>().unwrap(),
        "10.0.1.0/24".parse::<Cidr>().unwrap(),
        "10.0.2.0/24".parse::<Cidr>().unwrap(),
    ];
    let merged = merge_ipv4_nets(nets, 0);
    assert_eq!(merged.len(), 1);
    assert_eq!(merged[0], "10.0.0.0/16".parse::<Cidr>().unwrap());
}

#[test]
fn merge_ipv4_nets_handles_complex_merging_scenario() {
    // Test multiple iterations: merge adjacent, then merge the results
    let nets = vec![
        "10.0.0.0/24".parse::<Cidr>().unwrap(),
        "10.0.1.0/24".parse::<Cidr>().unwrap(),
        "10.0.2.0/24".parse::<Cidr>().unwrap(),
        "10.0.3.0/24".parse::<Cidr>().unwrap(),
    ];
    let merged = merge_ipv4_nets(nets, 0);
    assert_eq!(merged.len(), 1);
    assert_eq!(merged[0], "10.0.0.0/22".parse::<Cidr>().unwrap());
}

#[test]
fn merge_ipv4_nets_preserves_order_after_sorting() {
    let nets = vec![
        "192.168.1.0/24".parse::<Cidr>().unwrap(),
        "10.0.0.0/24".parse::<Cidr>().unwrap(),
        "172.16.0.0/24".parse::<Cidr>().unwrap(),
    ];
    let merged = merge_ipv4_nets(nets, 0);
    assert_eq!(merged.len(), 3);
    // Should be sorted by network address
    assert!(u32::from(merged[0].addr()) < u32::from(merged[1].addr()));
    assert!(u32::from(merged[1].addr()) < u32::from(merged[2].addr()));
}

#[test]
fn merge_ipv4_nets_handles_tolerance_edge_cases() {
    // Test tolerance = 0 (exact merge only)
    let nets = vec![
        "10.0.0.0/24".parse::<Cidr>().unwrap(),
        "10.0.2.0/24".parse::<Cidr>().unwrap(),
    ];
    let merged = merge_ipv4_nets(nets.clone(), 0);
    assert_eq!(merged.len(), 2);

    // Test tolerance = 511 (just below threshold)
    let merged = merge_ipv4_nets(nets.clone(), 511);
    assert_eq!(merged.len(), 2);

    // Test tolerance = 512 (at threshold)
    let merged = merge_ipv4_nets(nets.clone(), 512);
    assert_eq!(merged.len(), 1);

    // Test tolerance = u64::MAX (very large)
    let merged = merge_ipv4_nets(nets, u64::MAX);
    assert_eq!(merged.len(), 1);
}

#[test]
fn merge_ipv4_nets_handles_very_small_networks() {
    let nets = vec![
        "10.0.0.0/32".parse::<Cidr>().unwrap(),
        "10.0.0.1/32".parse::<Cidr>().unwrap(),
    ];
    let merged = merge_ipv4_nets(nets, 0);
    // Two adjacent /32s can merge into a /31 which covers exactly 2 addresses
    assert_eq!(merged.len(), 1);
    assert_eq!(merged[0], "10.0.0.0/31".parse::<Cidr>().unwrap());
}

#[test]
fn merge_ipv4_nets_handles_very_large_networks() {
    let nets = vec![
        "0.0.0.0/1".parse::<Cidr>().unwrap(),
        "128.0.0.0/1".parse::<Cidr>().unwrap(),
    ];
    let merged = merge_ipv4_nets(nets, 0);
    assert_eq!(merged.len(), 1);
    assert_eq!(merged[0], "0.0.0.0/0".parse::<Cidr>().unwrap());
}

// ========== Helper function tests ==========

#[test]
fn test_try_merge_exact_adjacent_same_prefix() {
    let a = "10.0.0.0/24".parse::<Cidr>().unwrap();
    let b = "10.0.1.0/24".parse::<Cidr>().unwrap();
    let result = try_merge_exact(&a, &b);
    assert!(result.is_some());
    assert_eq!(result.unwrap(), "10.0.0.0/23".parse::<Cidr>().unwrap());
}

#[test]
fn test_try_merge_exact_different_prefix_lengths() {
    let a = "10.0.0.0/24".parse::<Cidr>().unwrap();
    let b = "10.0.1.0/23".parse::<Cidr>().unwrap();
    let result = try_merge_exact(&a, &b);
    assert!(result.is_none());
}

#[test]
fn test_try_merge_exact_non_adjacent() {
    let a = "10.0.0.0/24".parse::<Cidr>().unwrap();
    let b = "10.0.2.0/24".parse::<Cidr>().unwrap();
    let result = try_merge_exact(&a, &b);
    assert!(result.is_none());
}

#[test]
fn test_try_merge_exact_prefix_zero() {
    let a = "10.0.0.0/0".parse::<Cidr>().unwrap();
    let b = "10.0.1.0/0".parse::<Cidr>().unwrap();
    let result = try_merge_exact(&a, &b);
    assert!(result.is_none());
}

#[test]
fn test_network_covers_supernet_covers_subnet() {
    let supernet = "10.0.0.0/16".parse::<Cidr>().unwrap();
    let subnet = "10.0.0.0/24".parse::<Cidr>().unwrap();
    assert!(network_covers(&supernet, &subnet));
}

#[test]
fn test_network_covers_same_network() {
    let net = "10.0.0.0/24".parse::<Cidr>().unwrap();
    assert!(network_covers(&net, &net));
}

#[test]
fn test_network_covers_subnet_does_not_cover_supernet() {
    let subnet = "10.0.0.0/24".parse::<Cidr>().unwrap();
    let supernet = "10.0.0.0/16".parse::<Cidr>().unwrap();
    assert!(!network_covers(&subnet, &supernet));
}

#[test]
fn test_network_covers_disjoint_networks() {
    let a = "10.0.0.0/24".parse::<Cidr>().unwrap();
    let b = "10.0.2.0/24".parse::<Cidr>().unwrap();
    assert!(!network_covers(&a, &b));
    assert!(!network_covers(&b, &a));
}

#[test]
fn test_network_covers_partial_overlap() {
    let a = "10.0.0.0/23".parse::<Cidr>().unwrap();
    let b = "10.0.1.0/24".parse::<Cidr>().unwrap();
    assert!(network_covers(&a, &b));
    assert!(!network_covers(&b, &a));
}

#[test]
fn test_find_covering_supernet_adjacent_networks() {
    let a = "10.0.0.0/24".parse::<Cidr>().unwrap();
    let b = "10.0.2.0/24".parse::<Cidr>().unwrap();
    let result = find_covering_supernet(&a, &b);
    assert!(result.is_some());
    // Should find /22 that covers both
    assert!(result.unwrap().prefix_len() <= 22);
}

#[test]
fn test_find_covering_supernet_overlapping_networks() {
    let a = "10.0.0.0/23".parse::<Cidr>().unwrap();
    let b = "10.0.1.0/24".parse::<Cidr>().unwrap();
    let result = find_covering_supernet(&a, &b);
    assert!(result.is_some());
    // Should find /23 that covers both
    assert_eq!(result.unwrap().prefix_len(), 23);
}

#[test]
fn test_find_covering_supernet_disjoint_networks() {
    let a = "10.0.0.0/24".parse::<Cidr>().unwrap();
    let b = "192.168.0.0/24".parse::<Cidr>().unwrap();
    let result = find_covering_supernet(&a, &b);
    assert!(result.is_some());
    // Should find a very large supernet (likely /0)
    assert_eq!(result.unwrap().prefix_len(), 0);
}

#[test]
fn test_network_address_count() {
    assert_eq!(network_address_count(&"10.0.0.0/32".parse::<Cidr>().unwrap()), 1);
    assert_eq!(network_address_count(&"10.0.0.0/31".parse::<Cidr>().unwrap()), 2);
    assert_eq!(network_address_count(&"10.0.0.0/24".parse::<Cidr>().unwrap()), 256);
    assert_eq!(network_address_count(&"10.0.0.0/16".parse::<Cidr>().unwrap()), 65536);
    assert_eq!(network_address_count(&"10.0.0.0/8".parse::<Cidr>().unwrap()), 16777216);
    assert_eq!(network_address_count(&"0.0.0.0/0".parse::<Cidr>().unwrap()), 4294967296);
}

#[test]
fn test_network_overlap_no_overlap() {
    let a = "10.0.0.0/24".parse::<Cidr>().unwrap();
    let b = "10.0.2.0/24".parse::<Cidr>().unwrap();
    assert_eq!(network_overlap(&a, &b), 0);
}

#[test]
fn test_network_overlap_full_overlap() {
    let a = "10.0.0.0/16".parse::<Cidr>().unwrap();
    let b = "10.0.0.0/24".parse::<Cidr>().unwrap();
    assert_eq!(network_overlap(&a, &b), 256);
}

#[test]
fn test_network_overlap_partial_overlap() {
    let a = "10.0.0.0/23".parse::<Cidr>().unwrap();
    let b = "10.0.1.0/24".parse::<Cidr>().unwrap();
    assert_eq!(network_overlap(&a, &b), 256);
}

#[test]
fn test_network_overlap_adjacent_no_overlap() {
    let a = "10.0.0.0/24".parse::<Cidr>().unwrap();
    let b = "10.0.1.0/24".parse::<Cidr>().unwrap();
    assert_eq!(network_overlap(&a, &b), 0);
}

#[test]
fn test_network_overlap_same_network() {
    let a = "10.0.0.0/24".parse::<Cidr>().unwrap();
    assert_eq!(network_overlap(&a, &a), 256);
}

#[test]
fn test_remove_covered_nets_empty() {
    let (result, changed) = remove_covered_nets(vec![]);
    assert_eq!(result.len(), 0);
    assert!(!changed);
}

#[test]
fn test_remove_covered_nets_no_covered() {
    let nets = vec![
        "10.0.0.0/24".parse::<Cidr>().unwrap(),
        "10.0.2.0/24".parse::<Cidr>().unwrap(),
    ];
    let (result, changed) = remove_covered_nets(nets);
    assert_eq!(result.len(), 2);
    assert!(!changed);
}

#[test]
fn test_remove_covered_nets_removes_covered() {
    let nets = vec![
        "10.0.0.0/16".parse::<Cidr>().unwrap(),
        "10.0.0.0/24".parse::<Cidr>().unwrap(),
        "10.0.1.0/24".parse::<Cidr>().unwrap(),
    ];
    let (result, changed) = remove_covered_nets(nets);
    assert_eq!(result.len(), 1);
    assert!(changed);
    assert_eq!(result[0], "10.0.0.0/16".parse::<Cidr>().unwrap());
}

#[test]
fn test_sort_and_dedup_removes_duplicates() {
    let mut nets = vec![
        "10.0.0.0/24".parse::<Cidr>().unwrap(),
        "10.0.0.0/24".parse::<Cidr>().unwrap(),
        "192.168.1.0/24".parse::<Cidr>().unwrap(),
    ];
    sort_and_dedup(&mut nets);
    assert_eq!(nets.len(), 2);
}

#[test]
fn test_sort_and_dedup_sorts_by_address_then_prefix() {
    let mut nets = vec![
        "10.0.1.0/24".parse::<Cidr>().unwrap(),
        "10.0.0.0/24".parse::<Cidr>().unwrap(),
        "10.0.0.0/16".parse::<Cidr>().unwrap(),
    ];
    sort_and_dedup(&mut nets);
    assert_eq!(nets[0], "10.0.0.0/16".parse::<Cidr>().unwrap());
    assert_eq!(nets[1], "10.0.0.0/24".parse::<Cidr>().unwrap());
    assert_eq!(nets[2], "10.0.1.0/24".parse::<Cidr>().unwrap());
}
