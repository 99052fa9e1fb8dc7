use ip_config_tool::process::Outcome;
use ip_config_tool::scanner::{
    arp_resolve, cached_hosts, format_mac, host_ip, parse_arp_table, parse_base, run_arp_a, sweep_batches, ScanResult,
    Sweep, SweepStep,
};

// What `arp -a` prints: several interface sections, broadcast and multicast
// entries, a dynamic entry among static ones.
const ARP_OUTPUT: &str = "\r\n\
Interface: 169.254.123.130 --- 0xc\r\n\
  Internet Address      Physical Address      Type\r\n\
  169.254.255.255       ff-ff-ff-ff-ff-ff     static    \r\n\
  224.0.0.22            01-00-5e-00-00-16     static    \r\n\
\r\n\
Interface: 172.20.10.2 --- 0x14\r\n\
  Internet Address      Physical Address      Type\r\n\
  172.20.10.1           fe-9c-a7-c8-dc-64     dynamic   \r\n\
  172.20.10.15          ff-ff-ff-ff-ff-ff     static    \r\n\
  224.0.0.251            01-00-5e-00-00-fb     static    \r\n";

#[test]
fn parses_arp_table_across_multiple_interfaces() {
    let entries = parse_arp_table(ARP_OUTPUT);
    assert!(entries.contains(&("172.20.10.1".to_string(), "fe-9c-a7-c8-dc-64".to_string())));
    assert!(entries.contains(&("224.0.0.22".to_string(), "01-00-5e-00-00-16".to_string())));
}

#[test]
fn parse_arp_table_excludes_broadcast_entries() {
    let entries = parse_arp_table(ARP_OUTPUT);
    assert!(!entries.iter().any(|(_, mac)| mac.eq_ignore_ascii_case("ff-ff-ff-ff-ff-ff")));
}

#[test]
fn parse_arp_table_handles_empty_input() {
    assert!(parse_arp_table("").is_empty());
}

#[test]
fn parse_arp_table_ignores_header_and_interface_lines() {
    let entries = parse_arp_table(ARP_OUTPUT);
    // 3 real (non-broadcast) address rows across both interface sections:
    // 224.0.0.22, 172.20.10.1, 224.0.0.251 (169.254.255.255 and
    // 172.20.10.15 are broadcast entries and get filtered out).
    assert_eq!(entries.len(), 3);
}

#[test]
fn parse_base_splits_three_octets() {
    assert_eq!(parse_base("192.168.1"), Some([192, 168, 1]));
    assert_eq!(parse_base("10.0.0"), Some([10, 0, 0]));
}

#[test]
fn parse_base_rejects_wrong_segment_count() {
    assert_eq!(parse_base("192.168.1.5"), None);
    assert_eq!(parse_base("192.168"), None);
}

#[test]
fn format_mac_pads_and_uppercases() {
    assert_eq!(format_mac(&[0x02, 0xa, 0xff, 0x00, 0x1, 0xbc]), "02-0A-FF-00-01-BC");
}

#[test]
fn arp_resolve_returns_none_for_unreachable_address() {
    // The code for a network name that cannot be found, as for 240.0.0.1.
    assert_eq!(arp_resolve(67, &[0, 0, 0, 0, 0, 0], 6), None);
}

#[test]
fn arp_resolve_writes_the_address_of_a_host_that_answered() {
    let mac = [0x02, 0x0a, 0xff, 0x00, 0x01, 0xbc];
    assert_eq!(arp_resolve(0, &mac, 6).as_deref(), Some("02-0A-FF-00-01-BC"));
    assert_eq!(arp_resolve(0, &mac, 4), None);
    assert_eq!(arp_resolve(0, &mac, 0), None);
}

#[test]
fn parse_arp_table_skips_short_and_foreign_lines() {
    assert!(parse_arp_table("10.0.0.1 aa-bb-cc-dd-ee-ff\n").is_empty());
    assert!(parse_arp_table("host aa-bb-cc-dd-ee-ff dynamic\n").is_empty());
    assert!(parse_arp_table("10.0.0.1 FF-ff-FF-ff-FF-ff static\n").is_empty());
    assert_eq!(
        parse_arp_table("  10.0.0.1 aa-bb-cc-dd-ee-ff dynamic extra\r\n"),
        vec![("10.0.0.1".to_string(), "aa-bb-cc-dd-ee-ff".to_string())]
    );
}

#[test]
fn parse_base_rejects_octets_that_are_not_bytes() {
    assert_eq!(parse_base("192.168.256"), None);
    assert_eq!(parse_base("192..1"), None);
    assert_eq!(parse_base("a.b.c"), None);
    assert_eq!(parse_base("+1.02.255"), Some([1, 2, 255]));
}

#[test]
fn sweep_asks_every_host_once_in_batches() {
    let batches = sweep_batches("192.168.1").unwrap();
    assert_eq!(batches.iter().map(|b| b.len()).collect::<Vec<_>>(), vec![48, 48, 48, 48, 48, 14]);
    let hosts: Vec<[u8; 4]> = batches.concat();
    let expected: Vec<[u8; 4]> = (1..=254).map(|d| [192, 168, 1, d]).collect();
    assert_eq!(hosts, expected);
    assert_eq!(sweep_batches("192.168"), None);
}

#[test]
fn host_ip_writes_the_octets() {
    assert_eq!(host_ip([192, 168, 1, 254]), "192.168.1.254");
    assert_eq!(host_ip([0, 0, 0, 0]), "0.0.0.0");
}

#[test]
fn cached_hosts_are_those_of_the_subnet() {
    let text = "172.20.10.1 aa-aa-aa-aa-aa-aa dynamic\n172.20.100.1 bb-bb-bb-bb-bb-bb dynamic\n";
    assert_eq!(
        cached_hosts(text, "172.20.10"),
        vec![ScanResult { ip: "172.20.10.1".to_string(), mac: "aa-aa-aa-aa-aa-aa".to_string() }]
    );
    assert!(cached_hosts(text, "172.20.1").is_empty());
}

#[test]
fn run_arp_a_gives_what_was_printed() {
    let ended = Outcome::Ended { success: false, stdout: "table".to_string(), stderr: "x".to_string() };
    assert_eq!(run_arp_a(ended), Ok("table".to_string()));
    assert_eq!(
        run_arp_a(Outcome::NotStarted("gone".to_string())),
        Err("failed to launch arp: gone".to_string())
    );
}

#[test]
fn a_sweep_asks_every_batch_and_then_tells_the_cached_hosts() {
    let mut sweep = Sweep::new("10.0.0").unwrap();
    for batch in sweep_batches("10.0.0").unwrap() {
        assert_eq!(sweep.next(false), SweepStep::Ask(batch));
    }
    assert_eq!(sweep.next(false), SweepStep::TellCached);
    assert_eq!(sweep.next(false), SweepStep::Done);
    assert!(Sweep::new("10.0").is_none());
}

#[test]
fn a_cancelled_sweep_still_tells_the_cached_hosts() {
    let mut sweep = Sweep::new("10.0.0").unwrap();
    assert!(matches!(sweep.next(false), SweepStep::Ask(_)));
    assert_eq!(sweep.next(true), SweepStep::TellCached);
    assert_eq!(sweep.next(false), SweepStep::Done);
}
