use ip_config_tool::identify::{
    identify, is_ipv6, netbios_name, parse_netbios_name, port_scan, resolve_target, useful_name, Address, Target,
    PORTS_TO_CHECK,
};
use ip_config_tool::oui::parse_table;
use ip_config_tool::process::Outcome;

// What `nbtstat` prints where no host answers.
const NO_RESULT: &str = "\r\n\
WiFi:\r\n\
Node IpAddress: [172.20.10.2] Scope Id: []\r\n\
\r\n\
Host not found.\r\n";

#[test]
fn parse_netbios_name_returns_none_when_host_not_found() {
    assert_eq!(parse_netbios_name(NO_RESULT), None);
}

// What `nbtstat` prints for a host that answers.
const FOUND_RESULT: &str = "\r\n\
Local Area Connection:\r\n\
Node IpAddress: [192.168.1.5] Scope Id: []\r\n\
\r\n\
NetBIOS Remote Machine Name Table\r\n\
\r\n\
Name               Type         Status\r\n\
---------------------------------------------\r\n\
ENGWORKSTATION <00>  UNIQUE      Registered\r\n\
WORKGROUP      <00>  GROUP       Registered\r\n\
ENGWORKSTATION <20>  UNIQUE      Registered\r\n\
WORKGROUP      <1E>  GROUP       Registered\r\n\
\r\n\
MAC Address = 00-11-22-33-44-55\r\n";

#[test]
fn parse_netbios_name_prefers_the_20_workstation_entry() {
    assert_eq!(parse_netbios_name(FOUND_RESULT).as_deref(), Some("ENGWORKSTATION"));
}

#[test]
fn parse_netbios_name_ignores_group_entries() {
    let name = parse_netbios_name(FOUND_RESULT).unwrap();
    assert_ne!(name, "WORKGROUP");
}

#[test]
fn parse_netbios_name_falls_back_to_00_unique_without_20() {
    let text = "\r\nName Table\r\n    SOMEHOST       <00>  UNIQUE      Registered\r\n    WORKGROUP      <00>  GROUP       Registered\r\n";
    assert_eq!(parse_netbios_name(text).as_deref(), Some("SOMEHOST"));
}

#[test]
fn parse_netbios_name_handles_empty_input() {
    assert_eq!(parse_netbios_name(""), None);
}

// fe80::1
const LINK_LOCAL: [u8; 16] = [0xfe, 0x80, 0, 0, 0, 0, 0, 0, 0, 0, 0, 0, 0, 0, 0, 1];

// fe80::dead:beef
const DEAD_BEEF: [u8; 16] = [0xfe, 0x80, 0, 0, 0, 0, 0, 0, 0, 0, 0, 0, 0xde, 0xad, 0xbe, 0xef];

#[test]
fn port_scan_of_localhost_finds_no_open_ports_in_reserved_range() {
    // 240.0.0.1 is unused/reserved space; nothing should be listening.
    let result = port_scan("240.0.0.1", Some(Address::V4([240, 0, 0, 1])), &[(1, "test")], &[false]);
    assert!(result.is_empty());
}

#[test]
fn port_scan_handles_invalid_ip_gracefully() {
    assert!(port_scan("not-an-ip", None, &PORTS_TO_CHECK, &[true; 11]).is_empty());
}

#[test]
fn port_scan_accepts_scoped_ipv6_link_local_address() {
    let result = port_scan("fe80::dead:beef%1", Some(Address::V6(DEAD_BEEF)), &[(1, "test")], &[false]);
    assert!(result.is_empty());
    let result = port_scan("fe80::dead:beef%1", Some(Address::V6(DEAD_BEEF)), &[(1, "test")], &[true]);
    assert_eq!(result, vec!["test"]);
}

#[test]
fn resolve_target_splits_v6_zone_into_scope_id() {
    let target = resolve_target("fe80::1%20", Some(Address::V6(LINK_LOCAL))).expect("should parse");
    match target {
        Target::V6 { addr, scope_id } => {
            assert_eq!(addr, LINK_LOCAL);
            assert_eq!(scope_id, 20);
        }
        Target::V4(_) => panic!("expected V6 target"),
    }
}

#[test]
fn resolve_target_rejects_non_numeric_zone() {
    assert!(resolve_target("fe80::1%not-a-number", Some(Address::V6(LINK_LOCAL))).is_none());
}

#[test]
fn resolve_target_handles_plain_ipv4() {
    let target = resolve_target("192.168.1.1", Some(Address::V4([192, 168, 1, 1]))).expect("should parse");
    match target {
        Target::V4(addr) => assert_eq!(addr, Address::V4([192, 168, 1, 1])),
        Target::V6 { .. } => panic!("expected V4 target"),
    }
}

#[test]
fn resolve_target_rejects_what_is_no_address() {
    assert_eq!(resolve_target("not-an-ip", None), None);
    assert_eq!(resolve_target("nonsense%20", None), None);
    assert_eq!(resolve_target("192.168.1.1%20", Some(Address::V4([192, 168, 1, 1]))), None);
}

#[test]
fn resolve_target_takes_an_ipv6_address_without_a_zone() {
    assert_eq!(resolve_target("fe80::1", Some(Address::V6(LINK_LOCAL))), Some(Target::V4(Address::V6(LINK_LOCAL))));
}

#[test]
fn is_ipv6_distinguishes_address_families() {
    assert!(is_ipv6("fe80::1%20"));
    assert!(!is_ipv6("192.168.1.1"));
}

#[test]
fn parse_netbios_name_takes_the_first_entry_of_each_kind() {
    let text = "A <00> UNIQUE\nB <00> UNIQUE\nC <20> UNIQUE\nD <20> UNIQUE\n";
    assert_eq!(parse_netbios_name(text).as_deref(), Some("C"));
    assert_eq!(parse_netbios_name("A <00> UNIQUE\nB <00> UNIQUE\n").as_deref(), Some("A"));
}

#[test]
fn netbios_name_needs_a_command_that_started() {
    assert_eq!(netbios_name(&Outcome::NotStarted("no such file".to_string())), None);
    let ended = Outcome::Ended { success: false, stdout: FOUND_RESULT.to_string(), stderr: String::new() };
    assert_eq!(netbios_name(&ended).as_deref(), Some("ENGWORKSTATION"));
}

#[test]
fn resolve_target_accepts_a_sign_and_rejects_a_zone_that_is_too_large() {
    let resolve = |ip: &str| resolve_target(ip, Some(Address::V6(LINK_LOCAL)));
    assert_eq!(resolve("fe80::1%+7"), Some(Target::V6 { addr: LINK_LOCAL, scope_id: 7 }));
    assert_eq!(resolve("fe80::1%4294967295"), Some(Target::V6 { addr: LINK_LOCAL, scope_id: 4294967295 }));
    assert_eq!(resolve("fe80::1%4294967296"), None);
    assert_eq!(resolve("fe80::1%"), None);
}

#[test]
fn useful_name_is_neither_empty_nor_the_address() {
    assert!(useful_name("10.0.0.1", "plc-1"));
    assert!(!useful_name("10.0.0.1", ""));
    assert!(!useful_name("10.0.0.1", "10.0.0.1"));
}

#[test]
fn answering_ports_keep_their_order() {
    let ports = [(21, "FTP"), (22, "SSH"), (80, "HTTP")];
    let scan = |answered: &[bool]| port_scan("10.0.0.5", Some(Address::V4([10, 0, 0, 5])), &ports, answered);
    assert_eq!(scan(&[true, false, true]), vec!["FTP", "HTTP"]);
    assert!(scan(&[false, false, false]).is_empty());
}

#[test]
fn identify_puts_the_answers_together() {
    let table = parse_table("00000C,Cisco Systems  Inc\n0001E3,Siemens AG\n");
    let mut answered = vec![false; PORTS_TO_CHECK.len()];
    answered[3] = true;
    answered[7] = true;
    let mac = Some([0x00, 0x01, 0xE3, 1, 2, 3]);
    let r = identify(&table, "10.0.0.5", mac, Some("plc".to_string()), None, Some(Address::V4([10, 0, 0, 5])), &answered);
    assert_eq!(r.vendor.as_deref(), Some("Siemens AG"));
    assert_eq!(r.hostname.as_deref(), Some("plc"));
    assert_eq!(r.open_ports, vec!["HTTP", "Modbus"]);
}

#[test]
fn identify_falls_back_to_the_name_table() {
    let answered = vec![false; PORTS_TO_CHECK.len()];
    let nbtstat = Outcome::Ended { success: true, stdout: FOUND_RESULT.to_string(), stderr: String::new() };
    let r = identify(&[], "10.0.0.5", None, Some("10.0.0.5".to_string()), Some(nbtstat), None, &answered);
    assert_eq!(r.vendor, None);
    assert_eq!(r.hostname.as_deref(), Some("ENGWORKSTATION"));
    assert!(r.open_ports.is_empty());
}

#[test]
fn identify_asks_no_name_of_an_ipv6_address() {
    let answered = vec![false; PORTS_TO_CHECK.len()];
    let r = identify(&[], "fe80::1%20", None, Some("plc".to_string()), None, Some(Address::V6(LINK_LOCAL)), &answered);
    assert_eq!(r.hostname, None);
}
