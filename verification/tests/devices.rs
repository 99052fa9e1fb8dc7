use ip_config_tool::devices::{
    on_open_browser, scan_complete_status, write_identify_result, Devices, Selection,
};
use ip_config_tool::identify::IdentifyResult;
use ip_config_tool::ipv6::parse_neighbor_table;
use ip_config_tool::netiface::parse_show_config;
use ip_config_tool::scanner::ScanResult;

fn host(ip: &str, mac: &str) -> ScanResult {
    ScanResult { ip: ip.to_string(), mac: mac.to_string() }
}

fn result(ports: &[&'static str]) -> IdentifyResult {
    IdentifyResult { vendor: None, hostname: None, open_ports: ports.to_vec() }
}

#[test]
fn a_host_is_listed_once() {
    let mut d = Devices::new();
    d.scan_started();
    assert!(d.drain_scan_results(host("10.0.0.1", "AA")));
    assert!(!d.drain_scan_results(host("10.0.0.1", "BB")));
    assert!(d.drain_scan_results(host("10.0.0.2", "AA")));
    assert_eq!(d.len(), 2);
    assert_eq!(d.row(0), &host("10.0.0.1", "AA"));
    assert_eq!(d.find_row_by_ip("10.0.0.2"), Some(1));
    assert_eq!(d.find_row_by_ip("10.0.0.3"), None);
    d.scan_started();
    assert_eq!(d.len(), 0);
}

#[test]
fn a_neighbor_is_listed_in_upper_case() {
    let mut d = Devices::new();
    let neighbors = parse_neighbor_table("fe80::1 fe-9c-a7-c8-dc-64 Reachable\nfe80::2 Stale\n", 3);
    assert!(d.drain_ipv6_results(&neighbors[0]));
    assert!(!d.drain_ipv6_results(&neighbors[0]));
    assert!(d.drain_ipv6_results(&neighbors[1]));
    assert_eq!(d.row(0), &host("fe80::1%3", "FE-9C-A7-C8-DC-64"));
    assert_eq!(d.row(1), &host("fe80::2%3", ""));
}

#[test]
fn the_end_of_a_scan_is_told_once() {
    let mut d = Devices::new();
    assert!(!d.try_report_scan_complete(false, false, false, false));
    d.scan_started();
    assert!(!d.try_report_scan_complete(true, false, false, false));
    assert!(!d.try_report_scan_complete(false, true, false, false));
    assert!(!d.try_report_scan_complete(false, false, true, false));
    assert!(!d.try_report_scan_complete(false, false, false, true));
    assert!(d.try_report_scan_complete(false, false, false, false));
    assert!(!d.try_report_scan_complete(false, false, false, false));
}

#[test]
fn a_device_is_identified_once() {
    let mut d = Devices::new();
    d.drain_scan_results(host("10.0.0.1", "AA-BB-CC-DD-EE-FF"));
    d.drain_scan_results(host("fe80::1%3", ""));
    assert_eq!(d.on_list_select(2), Selection::Nothing);
    assert_eq!(
        d.on_list_select(0),
        Selection::Identify { ip: "10.0.0.1".to_string(), mac: Some([0xAA, 0xBB, 0xCC, 0xDD, 0xEE, 0xFF]) }
    );
    assert_eq!(d.on_list_select(0), Selection::Resolving);
    assert_eq!(d.on_list_select(1), Selection::Identify { ip: "fe80::1%3".to_string(), mac: None });
    assert_eq!(d.drain_identify_results("10.0.0.1", result(&["SSH"])), Some(0));
    assert_eq!(d.on_list_select(0), Selection::Known);
    assert_eq!(d.on_list_select(1), Selection::Resolving);
    assert_eq!(d.known("10.0.0.1"), Some(&result(&["SSH"])));
    assert_eq!(d.known("fe80::1%3"), None);
    assert_eq!(d.drain_identify_results("10.0.0.9", result(&[])), None);
    assert_eq!(d.drain_identify_results("10.0.0.1", result(&["FTP"])), Some(0));
    assert_eq!(d.known("10.0.0.1"), Some(&result(&["FTP"])));
    assert_eq!(d.known("10.0.0.9"), Some(&result(&[])));
}

#[test]
fn what_is_known_outlives_a_scan() {
    let mut d = Devices::new();
    d.drain_scan_results(host("10.0.0.1", ""));
    d.on_list_select(0);
    d.scan_started();
    assert_eq!(d.drain_identify_results("10.0.0.1", result(&["SSH"])), None);
    d.drain_scan_results(host("10.0.0.1", ""));
    assert_eq!(d.on_list_select(0), Selection::Known);
}

#[test]
fn the_end_of_a_scan_hints_at_a_direct_cable() {
    assert_eq!(scan_complete_status(3, None), "Scan complete: 3 host(s) found.");
    let with = parse_show_config("Default Gateway: 10.0.0.1\n", "LAN").unwrap();
    assert_eq!(scan_complete_status(0, Some(&with)), "Scan complete: 0 host(s) found.");
    let without = parse_show_config("", "LAN").unwrap();
    assert_eq!(
        scan_complete_status(12, Some(&without)),
        "Scan complete: 12 host(s) found. No gateway detected \u{2014} this may be a direct cable connection."
    );
}

#[test]
fn columns_tell_what_is_not_known() {
    let (vendor, hostname, ports) = write_identify_result(&result(&[]));
    assert_eq!((vendor.as_str(), hostname.as_str(), ports.as_str()), ("(unknown)", "(none)", "(none open)"));
    let full = IdentifyResult {
        vendor: Some("Siemens AG".to_string()),
        hostname: Some("plc".to_string()),
        open_ports: vec!["FTP", "SSH", "HTTP"],
    };
    let (vendor, hostname, ports) = write_identify_result(&full);
    assert_eq!((vendor.as_str(), hostname.as_str(), ports.as_str()), ("Siemens AG", "plc", "FTP, SSH, HTTP"));
}

#[test]
fn the_browser_is_secure_where_nothing_else_answers() {
    let mut d = Devices::new();
    assert_eq!(on_open_browser(&d, "10.0.0.1"), "http://10.0.0.1");
    d.drain_identify_results("10.0.0.1", result(&["SSH", "HTTPS"]));
    assert_eq!(on_open_browser(&d, "10.0.0.1"), "https://10.0.0.1");
    d.drain_identify_results("10.0.0.1", result(&["HTTP", "HTTPS"]));
    assert_eq!(on_open_browser(&d, "10.0.0.1"), "http://10.0.0.1");
    assert_eq!(on_open_browser(&d, "fe80::1%20"), "http://[fe80::1%2520]");
}
