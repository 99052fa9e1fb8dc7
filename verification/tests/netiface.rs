use ip_config_tool::netiface::{
    extract_mask, find_index, find_nth_token_end, get_interface_config, get_interface_config_args, list_interfaces,
    list_interfaces_args, parse_interfaces_table, parse_show_config, run_netsh,
};
use ip_config_tool::process::Outcome;

const INTERFACES_TABLE: &str = "Idx     Met         MTU          State                Name\r\n\
---  ----------  ----------  ------------  ---------------------------\r\n\
  1          75  4294967295  connected     Loopback Pseudo-Interface 1\r\n\
 20          45        1500  connected     WiFi\r\n\
  5           5        1500  disconnected  Ethernet\r\n\
 12          25        1500  connected     Ethernet 2\r\n\
 45        5000        1500  connected     vEthernet (Default Switch)\r\n";

#[test]
fn parses_interfaces_table_names_with_spaces() {
    let rows = parse_interfaces_table(INTERFACES_TABLE);
    let names: Vec<&str> = rows.iter().map(|r| r.name.as_str()).collect();
    assert_eq!(
        names,
        vec![
            "Loopback Pseudo-Interface 1",
            "WiFi",
            "Ethernet",
            "Ethernet 2",
            "vEthernet (Default Switch)",
        ]
    );
}

#[test]
fn parses_interfaces_table_state_and_idx() {
    let rows = parse_interfaces_table(INTERFACES_TABLE);
    let ethernet2 = rows.iter().find(|r| r.name == "Ethernet 2").unwrap();
    assert_eq!(ethernet2.idx, 12);
    assert_eq!(ethernet2.state, "connected");

    let ethernet = rows.iter().find(|r| r.name == "Ethernet").unwrap();
    assert_eq!(ethernet.state, "disconnected");
}

// An interface with an address from DHCP.
const DHCP_WITH_GATEWAY_AND_MULTILINE_DNS: &str = "\r\nConfiguration for interface \"WiFi\"\r\n\
DHCP enabled:                         Yes\r\n\
IP Address:                           172.20.10.2\r\n\
Subnet Prefix:                        172.20.10.0/28 (mask 255.255.255.240)\r\n\
Default Gateway:                      172.20.10.1\r\n\
Gateway Metric:                       0\r\n\
InterfaceMetric:                      45\r\n\
DNS servers configured through DHCP:  127.0.0.1\r\n\
                                      1.1.1.1\r\n\
Register with which suffix:           Primary only\r\n\
WINS servers configured through DHCP: None\r\n";

#[test]
fn parses_dhcp_interface_with_gateway_and_multiline_dns() {
    let cfg = parse_show_config(DHCP_WITH_GATEWAY_AND_MULTILINE_DNS, "WiFi").unwrap();
    assert_eq!(cfg.name, "WiFi");
    assert!(cfg.dhcp);
    assert_eq!(cfg.ip.as_deref(), Some("172.20.10.2"));
    assert_eq!(cfg.mask.as_deref(), Some("255.255.255.240"));
    assert_eq!(cfg.gateway.as_deref(), Some("172.20.10.1"));
    assert_eq!(cfg.dns, vec!["127.0.0.1", "1.1.1.1"]);
}

// An interface with a fixed address and no gateway.
const STATIC_NO_GATEWAY_NO_DNS: &str = "\r\nConfiguration for interface \"Ethernet 2\"\r\n\
DHCP enabled:                         No\r\n\
IP Address:                           169.254.123.130\r\n\
Subnet Prefix:                        169.254.0.0/16 (mask 255.255.0.0)\r\n\
InterfaceMetric:                      25\r\n\
Statically Configured DNS Servers:    None\r\n\
Register with which suffix:           Primary only\r\n\
Statically Configured WINS Servers:   None\r\n";

#[test]
fn parses_static_interface_without_gateway_or_dns() {
    let cfg = parse_show_config(STATIC_NO_GATEWAY_NO_DNS, "Ethernet 2").unwrap();
    assert_eq!(cfg.name, "Ethernet 2");
    assert!(!cfg.dhcp);
    assert_eq!(cfg.ip.as_deref(), Some("169.254.123.130"));
    assert_eq!(cfg.mask.as_deref(), Some("255.255.0.0"));
    assert_eq!(cfg.gateway, None);
    assert!(cfg.dns.is_empty());
}

// An interface without a cable.
const DHCP_DISCONNECTED_NO_IP: &str = "\r\nConfiguration for interface \"Ethernet\"\r\n\
DHCP enabled:                         Yes\r\n\
InterfaceMetric:                      5\r\n\
DNS servers configured through DHCP:  None\r\n\
Register with which suffix:           Primary only\r\n\
WINS servers configured through DHCP: None\r\n";

#[test]
fn parses_disconnected_dhcp_interface_with_no_ip() {
    let cfg = parse_show_config(DHCP_DISCONNECTED_NO_IP, "Ethernet").unwrap();
    assert!(cfg.dhcp);
    assert_eq!(cfg.ip, None);
    assert_eq!(cfg.mask, None);
    assert_eq!(cfg.gateway, None);
    assert!(cfg.dns.is_empty());
}

// An interface with a fixed address, a gateway and a name server.
const STATIC_WITH_GATEWAY_AND_DNS: &str = "\r\nConfiguration for interface \"Ethernet 2\"\r\n\
DHCP enabled:                         No\r\n\
IP Address:                           192.168.1.250\r\n\
Subnet Prefix:                        192.168.1.0/24 (mask 255.255.255.0)\r\n\
Default Gateway:                      192.168.1.1\r\n\
Gateway Metric:                       0\r\n\
InterfaceMetric:                      25\r\n\
Statically Configured DNS Servers:    8.8.8.8\r\n\
Register with which suffix:           Primary only\r\n\
Statically Configured WINS Servers:   None\r\n";

#[test]
fn parses_fully_static_interface_with_gateway_and_dns() {
    let cfg = parse_show_config(STATIC_WITH_GATEWAY_AND_DNS, "Ethernet 2").unwrap();
    assert!(!cfg.dhcp);
    assert_eq!(cfg.ip.as_deref(), Some("192.168.1.250"));
    assert_eq!(cfg.mask.as_deref(), Some("255.255.255.0"));
    assert_eq!(cfg.gateway.as_deref(), Some("192.168.1.1"));
    assert_eq!(cfg.dns, vec!["8.8.8.8"]);
}

#[test]
fn extract_mask_handles_typical_subnet_prefix() {
    assert_eq!(
        extract_mask("172.20.10.0/28 (mask 255.255.255.240)").as_deref(),
        Some("255.255.255.240")
    );
}

fn printed(text: &str) -> Outcome {
    Outcome::Ended { success: true, stdout: text.to_string(), stderr: String::new() }
}

#[test]
fn parses_interfaces_table_without_rows_or_heading() {
    assert!(parse_interfaces_table("").is_empty());
    assert!(parse_interfaces_table(" 20 45 1500 connected WiFi\n").is_empty());
    assert!(parse_interfaces_table("---\n x 45 1500 connected WiFi\n 20 45 1500 connected\n").is_empty());
}

#[test]
fn find_nth_token_end_counts_words() {
    let s: Vec<char> = " ab  c d".chars().collect();
    assert_eq!(find_nth_token_end(&s, 1), 3);
    assert_eq!(find_nth_token_end(&s, 2), 6);
    assert_eq!(find_nth_token_end(&s, 3), 8);
    assert_eq!(find_nth_token_end(&s, 4), 8);
}

#[test]
fn parses_config_without_any_line() {
    let cfg = parse_show_config("", "Ethernet").unwrap();
    assert_eq!(cfg.name, "Ethernet");
    assert!(cfg.dhcp);
    assert_eq!(cfg.ip, None);
}

#[test]
fn name_servers_end_with_the_next_setting() {
    let text = "DHCP enabled: no\nStatically Configured DNS Servers: 1.1.1.1\n  8.8.8.8\n  None\nMetric: 1\n  9.9.9.9\n";
    let cfg = parse_show_config(text, "x").unwrap();
    assert!(!cfg.dhcp);
    assert_eq!(cfg.dns, vec!["1.1.1.1", "8.8.8.8"]);
}

#[test]
fn extract_mask_needs_its_label_and_no_bracket() {
    assert_eq!(extract_mask("172.20.10.0/28"), None);
    assert_eq!(extract_mask("(mask  255.0.0.0 ").as_deref(), Some("255.0.0.0"));
}

#[test]
fn run_netsh_tells_why_it_failed() {
    assert_eq!(run_netsh("[\"a\"]", printed("out")), Ok("out".to_string()));
    assert_eq!(
        run_netsh("[\"a\"]", Outcome::NotStarted("gone".to_string())),
        Err("failed to launch netsh: gone".to_string())
    );
    let failed = Outcome::Ended { success: false, stdout: "out".to_string(), stderr: "err ".to_string() };
    assert_eq!(run_netsh("[\"a\"]", failed), Err("netsh [\"a\"] failed: err out".to_string()));
}

#[test]
fn interfaces_are_listed_and_found_by_name() {
    assert_eq!(list_interfaces_args(), vec!["interface", "ipv4", "show", "interfaces"]);
    let rows = list_interfaces("[]", printed(INTERFACES_TABLE)).unwrap();
    assert_eq!(rows.len(), 5);
    assert_eq!(find_index(&rows, "Ethernet 2"), Some(12));
    assert_eq!(find_index(&rows, "Ethernet 3"), None);
    assert!(list_interfaces("[]", Outcome::NotStarted("x".to_string())).is_err());
}

#[test]
fn configuration_is_read_from_what_was_printed() {
    assert_eq!(
        get_interface_config_args("Ethernet 2"),
        vec!["interface", "ip", "show", "config", "name=Ethernet 2"]
    );
    let cfg = get_interface_config("Ethernet 2", "[]", printed(STATIC_NO_GATEWAY_NO_DNS)).unwrap();
    assert_eq!(cfg.ip.as_deref(), Some("169.254.123.130"));
    assert!(get_interface_config("x", "[]", Outcome::NotStarted("x".to_string())).is_err());
}

#[test]
fn name_servers_set_by_hand_are_told_apart() {
    let read = |text: &str| parse_show_config(text, "x").unwrap();
    assert!(!read(DHCP_WITH_GATEWAY_AND_MULTILINE_DNS).static_dns);
    assert!(read(STATIC_WITH_GATEWAY_AND_DNS).static_dns);
    let mixed = read("DHCP enabled: Yes\nStatically Configured DNS Servers: 8.8.8.8\n");
    assert!(mixed.dhcp && mixed.static_dns);
    assert_eq!(mixed.dns, vec!["8.8.8.8"]);
    assert!(!read("").static_dns);
}
