use ip_config_tool::oui::{parse_table, vendor_lookup, vendor_lookup_mac};

// Some rows of the registry, out of order and with lines that hold none.
const REGISTRY: &str = "0001E3,Siemens AG\n\
00000C,Cisco Systems  Inc\n\
prefix,vendor\n\
no comma\n\
00000C\n\
F8F005,Newport Media, Inc.\n";

#[test]
fn resolves_known_cisco_prefix() {
    let table = parse_table(REGISTRY);
    assert_eq!(vendor_lookup(&table, [0x00, 0x00, 0x0C]).unwrap(), "Cisco Systems  Inc");
}

#[test]
fn resolves_known_siemens_prefix() {
    let table = parse_table(REGISTRY);
    let vendor = vendor_lookup(&table, [0x00, 0x01, 0xE3]).unwrap();
    assert!(vendor.contains("Siemens"), "unexpected vendor: {vendor}");
}

#[test]
fn unknown_prefix_returns_none() {
    // FF-FF-FF is reserved/unassigned, never a real OUI.
    let table = parse_table(REGISTRY);
    assert_eq!(vendor_lookup(&table, [0xFF, 0xFF, 0xFF]), None);
}

#[test]
fn full_mac_overload_uses_only_first_three_bytes() {
    let table = parse_table(REGISTRY);
    let mac = [0x00, 0x00, 0x0C, 0x12, 0x34, 0x56];
    assert_eq!(vendor_lookup_mac(&table, mac), vendor_lookup(&table, [0x00, 0x00, 0x0C]));
    assert_eq!(vendor_lookup_mac(&table, mac), Some("Cisco Systems  Inc"));
}

#[test]
fn parse_table_handles_small_fixture() {
    let fixture = "00000C,Cisco Systems  Inc\n0001E3,Siemens AG\n";
    let rows = parse_table(fixture);
    assert_eq!(rows.len(), 2);
    assert!(rows.windows(2).all(|w| w[0].0 <= w[1].0), "table must be sorted for binary search");
}

#[test]
fn table_is_sorted_and_nonempty() {
    let mut raw = String::new();
    for i in (0..12_000u32).rev() {
        raw.push_str(&format!("{:06X},Vendor {}\r\n", i * 7, i));
    }
    let t = parse_table(&raw);
    assert!(t.len() > 10_000, "expected a table of full size, got {} rows", t.len());
    assert!(t.windows(2).all(|w| w[0].0 <= w[1].0));
    assert_eq!(vendor_lookup(&t, [0x00, 0x00, 0x07]), Some("Vendor 1"));
    assert_eq!(vendor_lookup(&t, [0x00, 0x00, 0x08]), None);
}

#[test]
fn a_vendor_may_hold_commas_and_bad_lines_are_skipped() {
    let table = parse_table(REGISTRY);
    assert_eq!(table.len(), 3);
    assert_eq!(vendor_lookup(&table, [0xF8, 0xF0, 0x05]), Some("Newport Media, Inc."));
}

#[test]
fn an_empty_table_knows_no_vendor() {
    let table = parse_table("");
    assert!(table.is_empty());
    assert_eq!(vendor_lookup(&table, [0, 0, 0]), None);
}
