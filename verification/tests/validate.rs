use ip_config_tool::scanner::host_ip;
use ip_config_tool::validate::{mask_prefix_len, network_addr, parse_ipv4, parse_mask, validate_static_config};

#[test]
fn parses_valid_ip() {
    assert_eq!(parse_ipv4("192.168.1.10").unwrap(), [192, 168, 1, 10]);
}

#[test]
fn rejects_ip_with_too_few_octets() {
    assert!(parse_ipv4("192.168.1").is_err());
}

#[test]
fn rejects_ip_with_out_of_range_octet() {
    assert!(parse_ipv4("192.168.1.999").is_err());
}

#[test]
fn rejects_ip_with_non_numeric_octet() {
    assert!(parse_ipv4("192.168.1.abc").is_err());
}

#[test]
fn accepts_common_masks() {
    assert!(parse_mask("255.255.255.0").is_ok());
    assert!(parse_mask("255.255.0.0").is_ok());
    assert!(parse_mask("255.0.0.0").is_ok());
    assert!(parse_mask("255.255.255.252").is_ok());
    assert!(parse_mask("255.255.255.255").is_ok());
    assert!(parse_mask("0.0.0.0").is_ok());
}

#[test]
fn rejects_non_contiguous_mask() {
    // 255.255.0.255 -> bits are 1s, 0s, then 1s again: not contiguous.
    assert!(parse_mask("255.255.0.255").is_err());
    assert!(parse_mask("255.0.255.0").is_err());
}

#[test]
fn prefix_len_matches_mask() {
    assert_eq!(mask_prefix_len(parse_mask("255.255.255.0").unwrap()), 24);
    assert_eq!(mask_prefix_len(parse_mask("255.255.0.0").unwrap()), 16);
}

#[test]
fn gateway_in_subnet_is_valid() {
    assert!(validate_static_config("192.168.1.250", "255.255.255.0", "192.168.1.1").is_ok());
}

#[test]
fn gateway_outside_subnet_is_rejected() {
    let err = validate_static_config("192.168.1.250", "255.255.255.0", "192.168.2.1").unwrap_err();
    assert!(err.contains("not inside"), "unexpected error: {err}");
}

#[test]
fn empty_gateway_is_allowed() {
    assert!(validate_static_config("192.168.1.250", "255.255.255.0", "").is_ok());
}

#[test]
fn invalid_ip_is_rejected_before_gateway_check() {
    assert!(validate_static_config("999.1.1.1", "255.255.255.0", "").is_err());
}

#[test]
fn ip_errors_say_what_is_wrong() {
    assert_eq!(
        parse_ipv4(" 192.168.1 ").unwrap_err(),
        "'192.168.1' is not a valid IPv4 address (expected 4 octets)"
    );
    assert_eq!(parse_ipv4("1.2.3.x").unwrap_err(), "'1.2.3.x' is not a valid IPv4 address (bad octet 'x')");
    assert_eq!(parse_ipv4("1..3.4").unwrap_err(), "'1..3.4' is not a valid IPv4 address (bad octet '')");
    assert_eq!(
        parse_ipv4("1.2.3.256").unwrap_err(),
        "'1.2.3.256' is not a valid IPv4 address (octet '256' out of range)"
    );
    assert_eq!(
        parse_ipv4("1.2.3.99999999999").unwrap_err(),
        "'1.2.3.99999999999' is not a valid IPv4 address (octet '99999999999' out of range)"
    );
}

#[test]
fn ip_is_trimmed_and_may_have_leading_zeros() {
    assert_eq!(parse_ipv4("\t10.0.0.1 \n").unwrap(), [10, 0, 0, 1]);
    assert_eq!(parse_ipv4("010.000.0.0001").unwrap(), [10, 0, 0, 1]);
}

#[test]
fn ip_that_was_written_is_read_back() {
    for octets in [[0, 0, 0, 0], [255, 255, 255, 255], [192, 168, 10, 9]] {
        assert_eq!(parse_ipv4(&host_ip(octets)).unwrap(), octets);
    }
}

#[test]
fn mask_errors_say_what_is_wrong() {
    assert_eq!(parse_mask("x").unwrap_err(), "'x' is not a valid subnet mask");
    assert_eq!(
        parse_mask("255.0.255.0").unwrap_err(),
        "'255.0.255.0' is not a valid subnet mask (bits must be contiguous)"
    );
}

#[test]
fn every_prefix_length_has_its_mask() {
    for n in 0..=32u32 {
        let value: u64 = 0x1_0000_0000 - (1u64 << (32 - n));
        let mask = (value as u32).to_be_bytes();
        assert_eq!(parse_mask(&host_ip(mask)).unwrap(), mask);
        assert_eq!(mask_prefix_len(mask), n);
    }
}

#[test]
fn network_is_the_address_under_the_mask() {
    assert_eq!(network_addr([192, 168, 1, 77], [255, 255, 255, 0]), [192, 168, 1, 0]);
    assert_eq!(network_addr([10, 99, 200, 255], [255, 224, 0, 0]), [10, 96, 0, 0]);
}

#[test]
fn config_errors_name_the_field() {
    assert_eq!(
        validate_static_config("1.2.3", "255.0.0.0", "").unwrap_err(),
        "IP address: '1.2.3' is not a valid IPv4 address (expected 4 octets)"
    );
    assert_eq!(
        validate_static_config("1.2.3.4", "1.2.3.4", "").unwrap_err(),
        "Subnet mask: '1.2.3.4' is not a valid subnet mask (bits must be contiguous)"
    );
    assert_eq!(
        validate_static_config("1.2.3.4", "255.0.0.0", " 1.2 ").unwrap_err(),
        "Gateway: '1.2' is not a valid IPv4 address (expected 4 octets)"
    );
    assert_eq!(
        validate_static_config("192.168.1.250", "255.255.255.0", " 192.168.2.1 ").unwrap_err(),
        "Gateway 192.168.2.1 is not inside the 192.168.1.250/24 subnet"
    );
    assert!(validate_static_config("1.2.3.4", "255.0.0.0", "   ").is_ok());
}
