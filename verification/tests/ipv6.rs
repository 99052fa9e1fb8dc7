use ip_config_tool::ipv6::{
    discover_neighbors, ipv6_url_host, looks_like_mac, parse_neighbor_table, ping_all_nodes_args, show_neighbors_args,
    shown_mac, split_zone,
};
use ip_config_tool::process::Outcome;

// What `netsh` prints for an interface with one live neighbour among multicast
// groups.
const WIFI_FIXTURE: &str = "Interface 20: WiFi\r\n\
\r\n\
Internet Address                              Physical Address   Type\r\n\
--------------------------------------------  -----------------  -----------\r\n\
fe80::fc9c:a7ff:fec8:dc64                     fe-9c-a7-c8-dc-64  Reachable (Router)\r\n\
ff02::1                                       33-33-00-00-00-01  Permanent \r\n\
ff02::2                                       33-33-00-00-00-02  Permanent \r\n\
ff02::c                                       33-33-00-00-00-0c  Permanent \r\n\
ff02::16                                      33-33-00-00-00-16  Permanent \r\n\
ff02::fb                                      33-33-00-00-00-fb  Permanent \r\n\
ff02::1:2                                     33-33-00-01-00-02  Permanent \r\n\
ff02::1:3                                     33-33-00-01-00-03  Permanent \r\n\
ff02::1:ff69:2a6                              33-33-ff-69-02-a6  Permanent \r\n\
ff02::1:ffc8:dc64                             33-33-ff-c8-dc-64  Permanent \r\n";

// What it prints for an interface without a cable: stale entries, and one whose
// link-layer address was never resolved, so that its state stands in that column.
const ETHERNET2_FIXTURE: &str = "Interface 12: Ethernet 2\r\n\
\r\n\
Internet Address                              Physical Address   Type\r\n\
--------------------------------------------  -----------------  -----------\r\n\
fe80::71b1:b8c8:dd69:2a6                      00-00-00-00-00-00  Unreachable \r\n\
fe80::a65d:36ff:fe62:5a85                     00-00-00-00-00-00  Unreachable \r\n\
fe80::fc9c:a7ff:fec8:dc64                     Unreachable        Incomplete \r\n\
ff02::1                                       33-33-00-00-00-01  Permanent \r\n\
ff02::2                                       33-33-00-00-00-02  Permanent \r\n";

#[test]
fn finds_the_one_real_neighbor_and_appends_zone() {
    let neighbors = parse_neighbor_table(WIFI_FIXTURE, 20);
    assert_eq!(neighbors.len(), 1);
    assert_eq!(neighbors[0].address_with_zone, "fe80::fc9c:a7ff:fec8:dc64%20");
    assert_eq!(neighbors[0].mac.as_deref(), Some("fe-9c-a7-c8-dc-64"));
}

#[test]
fn excludes_multicast_group_rows() {
    let neighbors = parse_neighbor_table(WIFI_FIXTURE, 20);
    assert!(!neighbors.iter().any(|n| n.address_with_zone.starts_with("ff02:")));
}

#[test]
fn excludes_unreachable_and_incomplete_rows() {
    let neighbors = parse_neighbor_table(ETHERNET2_FIXTURE, 12);
    assert!(neighbors.is_empty(), "expected no live neighbors, got {neighbors:?}");
}

#[test]
fn handles_row_with_no_resolved_mac_without_misparsing_state_as_mac() {
    // Even though this row's "Incomplete" state gets filtered out, the
    // parser must not crash or misread "Unreachable" (in the MAC
    // column position) as if it were a MAC address.
    let text = "fe80::fc9c:a7ff:fec8:dc64                     Unreachable        Incomplete \r\n";
    let neighbors = parse_neighbor_table(text, 12);
    assert!(neighbors.is_empty());
}

#[test]
fn parse_neighbor_table_handles_empty_input() {
    assert!(parse_neighbor_table("", 1).is_empty());
}

#[test]
fn looks_like_mac_accepts_valid_mac() {
    assert!(looks_like_mac("fe-9c-a7-c8-dc-64"));
    assert!(looks_like_mac("00-00-00-00-00-00"));
}

#[test]
fn looks_like_mac_rejects_non_mac_tokens() {
    assert!(!looks_like_mac("Unreachable"));
    assert!(!looks_like_mac("Reachable"));
    assert!(!looks_like_mac(""));
    assert!(!looks_like_mac("fe-9c-a7-c8-dc")); // only 5 groups
}

#[test]
fn split_zone_splits_address_and_zone() {
    assert_eq!(split_zone("fe80::1%20"), ("fe80::1", Some("20")));
}

#[test]
fn split_zone_handles_address_without_zone() {
    assert_eq!(split_zone("fe80::1"), ("fe80::1", None));
}

#[test]
fn ipv6_url_host_percent_encodes_zone_delimiter() {
    assert_eq!(ipv6_url_host("fe80::1%20"), "[fe80::1%2520]");
}

#[test]
fn ipv6_url_host_handles_address_without_zone() {
    assert_eq!(ipv6_url_host("fe80::1"), "[fe80::1]");
}

#[test]
fn neighbor_without_a_resolved_mac_is_kept_where_its_state_is_live() {
    let neighbors = parse_neighbor_table("fe80::1   Stale\r\nfe80::2\r\n", 7);
    assert_eq!(neighbors.len(), 1);
    assert_eq!(neighbors[0].address_with_zone, "fe80::1%7");
    assert_eq!(neighbors[0].mac, None);
    assert_eq!(shown_mac(&neighbors[0]), "");
}

#[test]
fn shown_mac_is_in_upper_case() {
    let neighbors = parse_neighbor_table(WIFI_FIXTURE, 20);
    assert_eq!(shown_mac(&neighbors[0]), "FE-9C-A7-C8-DC-64");
}

#[test]
fn looks_like_mac_rejects_long_groups_and_other_letters() {
    assert!(!looks_like_mac("fe-9c-a7-c8-dc-640"));
    assert!(!looks_like_mac("ge-9c-a7-c8-dc-64"));
    assert!(looks_like_mac("FE-9C-A7-C8-DC-64"));
}

#[test]
fn split_zone_splits_at_the_first_sign_and_loses_nothing() {
    let (base, zone) = split_zone("fe80::1%a%b");
    assert_eq!((base, zone), ("fe80::1", Some("a%b")));
    assert_eq!(format!("{}%{}", base, zone.unwrap()), "fe80::1%a%b");
}

#[test]
fn discover_neighbors_needs_a_command_that_started() {
    assert!(discover_neighbors(20, Outcome::NotStarted("x".to_string())).is_empty());
    let ended = Outcome::Ended { success: false, stdout: WIFI_FIXTURE.to_string(), stderr: String::new() };
    assert_eq!(discover_neighbors(20, ended).len(), 1);
}

#[test]
fn neighbor_commands_name_the_interface() {
    assert_eq!(ping_all_nodes_args(20), vec!["-6", "-n", "1", "-w", "500", "ff02::1%20"]);
    assert_eq!(
        show_neighbors_args("Ethernet 2"),
        vec!["interface", "ipv6", "show", "neighbors", "interface=Ethernet 2"]
    );
}
