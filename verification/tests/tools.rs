use ip_config_tool::scanner::format_mac;
use ip_config_tool::tools::{
    build_magic_packet, launch, launch_failed, launch_visible, open_browser, parse_mac, Tool,
};

#[test]
fn magic_packet_is_102_bytes() {
    let packet = build_magic_packet([0x00, 0x11, 0x22, 0x33, 0x44, 0x55]);
    assert_eq!(packet.len(), 102);
}

#[test]
fn magic_packet_starts_with_six_ff_bytes() {
    let packet = build_magic_packet([0xAA, 0xBB, 0xCC, 0xDD, 0xEE, 0xFF]);
    assert_eq!(&packet[..6], &[0xFF; 6]);
}

#[test]
fn magic_packet_repeats_mac_sixteen_times() {
    let mac = [0x00, 0x11, 0x22, 0x33, 0x44, 0x55];
    let packet = build_magic_packet(mac);
    for i in 0..16 {
        let start = 6 + i * 6;
        assert_eq!(&packet[start..start + 6], &mac, "repetition {i} mismatch");
    }
}

#[test]
fn parse_mac_accepts_dash_separated() {
    assert_eq!(parse_mac("AA-BB-CC-DD-EE-FF"), Some([0xAA, 0xBB, 0xCC, 0xDD, 0xEE, 0xFF]));
}

#[test]
fn parse_mac_accepts_colon_separated() {
    assert_eq!(parse_mac("aa:bb:cc:dd:ee:ff"), Some([0xAA, 0xBB, 0xCC, 0xDD, 0xEE, 0xFF]));
}

#[test]
fn parse_mac_rejects_wrong_segment_count() {
    assert_eq!(parse_mac("AA-BB-CC"), None);
}

#[test]
fn parse_mac_rejects_non_hex() {
    assert_eq!(parse_mac("ZZ-BB-CC-DD-EE-FF"), None);
}

#[test]
fn parse_mac_reads_what_format_mac_writes() {
    let mac = [0x02, 0x0a, 0xff, 0x00, 0x01, 0xbc];
    assert_eq!(parse_mac(&format_mac(&mac)), Some(mac));
}

#[test]
fn parse_mac_reads_mixed_separators_and_short_parts() {
    assert_eq!(parse_mac("0:1-2:3-4:5"), Some([0, 1, 2, 3, 4, 5]));
    assert_eq!(parse_mac("AA-BB-CC-DD-EE-100"), None);
    assert_eq!(parse_mac("AA-BB-CC-DD-EE-"), None);
    assert_eq!(parse_mac(""), None);
}

#[test]
fn console_commands_start_a_window() {
    assert_eq!(launch_visible("ping", &["-t", "10.0.0.1"]), vec!["/C", "start", "ping", "-t", "10.0.0.1"]);
    assert_eq!(open_browser("http://10.0.0.1"), vec!["/C", "start", "http://10.0.0.1"]);
}

#[test]
fn tools_are_launched_with_their_arguments() {
    let ping = launch(Tool::Ping, "10.0.0.1");
    assert_eq!(ping.title, "Ping 10.0.0.1");
    assert_eq!(ping.program, "ping");
    assert_eq!(ping.args, vec!["-t", "10.0.0.1"]);
    assert_eq!(ping.fail_title, "Could not start ping");
    let trace = launch(Tool::Traceroute, "10.0.0.1");
    assert_eq!(trace.title, "Traceroute 10.0.0.1");
    assert_eq!(trace.program, "tracert");
    assert_eq!(trace.args, vec!["10.0.0.1"]);
    let ssh = launch(Tool::Ssh, "10.0.0.1");
    assert_eq!(ssh.title, "SSH 10.0.0.1");
    assert_eq!(ssh.program, "ssh");
    assert_eq!(ssh.fail_title, "Could not start SSH");
}

#[test]
fn only_ssh_gets_the_hint() {
    assert_eq!(launch_failed(Tool::Ping, "gone"), "gone");
    assert_eq!(
        launch_failed(Tool::Ssh, "gone"),
        "gone\n\nWindows' OpenSSH client (ssh.exe) may not be installed \u{2014} it's an optional Windows feature."
    );
}
