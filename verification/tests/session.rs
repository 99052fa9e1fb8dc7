use ip_config_tool::autodetect::{run, AutoDetectEvent, Input, Phase};
use ip_config_tool::netconfig::{apply_static, backup_current_config, BackupFile, Step};
use ip_config_tool::netiface::InterfaceConfig;
use ip_config_tool::scanner::parse_base;
use ip_config_tool::session::{
    applied_status, apply_failed, base_of, begin_search, drain_autodetect_events, on_apply, on_autodetect,
    on_save_subnet, on_scan, read_again, refresh_current_config_display, revert_all_backups_silently,
    reverted_status, subnet_stored, summarize, Answer, Dialog, Ending, RevertAll, Session, AUTO_REVERT_MS, MAX_ATTEMPTS,
};
use ip_config_tool::subnets::{CustomSubnet, Toggle};

fn config(dhcp: bool, ip: Option<&str>, mask: Option<&str>, gateway: Option<&str>) -> InterfaceConfig {
    InterfaceConfig {
        name: "LAN".to_string(),
        dhcp,
        ip: ip.map(str::to_string),
        mask: mask.map(str::to_string),
        gateway: gateway.map(str::to_string),
        dns: vec![],
        static_dns: false,
    }
}

fn dialog(title: &str, text: &str) -> Dialog {
    Dialog { title: title.to_string(), text: text.to_string() }
}

#[test]
fn summaries_tell_where_the_address_comes_from() {
    let ip = Some("10.0.0.5");
    let mask = Some("255.0.0.0");
    let gw = Some("10.0.0.1");
    assert_eq!(summarize(&config(true, ip, mask, gw)), "DHCP: 10.0.0.5 (gateway 10.0.0.1)");
    assert_eq!(summarize(&config(true, ip, mask, None)), "DHCP: 10.0.0.5");
    assert_eq!(summarize(&config(true, None, mask, gw)), "DHCP: (no address / disconnected)");
    assert_eq!(summarize(&config(false, ip, mask, gw)), "Static: 10.0.0.5 / 255.0.0.0 (gateway 10.0.0.1)");
    assert_eq!(summarize(&config(false, ip, mask, None)), "Static: 10.0.0.5 / 255.0.0.0 (gateway (none))");
    assert_eq!(summarize(&config(false, ip, None, gw)), "Static: (unconfigured)");
}

#[test]
fn base_is_the_first_three_octets_and_can_be_read() {
    assert_eq!(base_of("192.168.1.42").as_deref(), Some("192.168.1"));
    assert_eq!(base_of(" 010.0.0.1 ").as_deref(), Some("10.0.0"));
    assert_eq!(base_of("192.168.1"), None);
    assert_eq!(parse_base(&base_of("192.168.1.42").unwrap()), Some([192, 168, 1]));
}

#[test]
fn a_config_without_address_is_read_again_for_a_while() {
    assert_eq!(MAX_ATTEMPTS, 6);
    let none = Ok(config(true, None, None, None));
    assert!(read_again(1, &none));
    assert!(read_again(5, &none));
    assert!(!read_again(6, &none));
    assert!(!read_again(1, &Ok(config(true, Some("10.0.0.5"), None, None))));
    assert!(!read_again(1, &Err("denied".to_string())));
}

#[test]
fn fields_always_show_the_config_that_was_read() {
    let shown = refresh_current_config_display(&Ok(config(false, Some("10.0.0.5"), Some("255.0.0.0"), None)));
    assert_eq!(shown.line, "Static: 10.0.0.5 / 255.0.0.0 (gateway (none))");
    assert_eq!((shown.ip.as_str(), shown.mask.as_str(), shown.gateway.as_str()), ("10.0.0.5", "255.0.0.0", ""));
    let shown = refresh_current_config_display(&Ok(config(true, None, None, Some("10.0.0.1"))));
    assert_eq!(shown.line, "DHCP: (no address / disconnected)");
    assert_eq!((shown.ip.as_str(), shown.mask.as_str(), shown.gateway.as_str()), ("", "255.255.255.0", "10.0.0.1"));
    let shown = refresh_current_config_display(&Err("denied".to_string()));
    assert_eq!(shown.line, "Could not read config: denied");
    assert_eq!((shown.ip.as_str(), shown.mask.as_str(), shown.gateway.as_str()), ("", "255.255.255.0", ""));
}

#[test]
fn selection_follows_the_backup() {
    let mut s = Session::new();
    assert_eq!(s.current_iface(), None);
    s.backups_reverted(true);
    assert!(!s.is_applied());
    s.on_iface_selected("LAN", true);
    assert_eq!(s.current_iface().as_deref(), Some("LAN"));
    assert!(s.is_applied());
    s.backups_reverted(false);
    assert!(!s.is_applied());
}

#[test]
fn settings_are_taken_back_when_the_time_is_up() {
    let mut s = Session::new();
    s.on_iface_selected("LAN", false);
    s.settings_applied("LAN", 1_000);
    assert!(s.is_applied() && s.can_keep());
    let tick = s.tick_revert_countdown(1_000);
    assert!(tick.due.is_empty());
    assert_eq!(tick.line.as_deref(), Some("Reverting automatically in 181s unless you click Keep."));
    let tick = s.tick_revert_countdown(1_200);
    assert_eq!(tick.line.as_deref(), Some("Reverting automatically in 180s unless you click Keep."));
    let tick = s.tick_revert_countdown(1_000 + AUTO_REVERT_MS - 1);
    assert!(tick.due.is_empty());
    assert_eq!(tick.line.as_deref(), Some("Reverting automatically in 1s unless you click Keep."));
    let tick = s.tick_revert_countdown(1_000 + AUTO_REVERT_MS);
    assert_eq!(tick.due, vec!["LAN"]);
    assert_eq!(tick.line.as_deref(), Some(""));
    s.settings_reverted("LAN");
    assert!(!s.is_applied() && !s.can_keep());
    let tick = s.tick_revert_countdown(1_000 + 2 * AUTO_REVERT_MS);
    assert!(tick.due.is_empty());
    assert_eq!(tick.line, None);
}

#[test]
fn kept_settings_are_not_taken_back() {
    let mut s = Session::new();
    s.on_iface_selected("LAN", false);
    s.settings_applied("LAN", 0);
    s.on_keep();
    assert!(s.is_applied());
    let tick = s.tick_revert_countdown(10 * AUTO_REVERT_MS);
    assert!(tick.due.is_empty());
    assert_eq!(tick.line, None);
}

#[test]
fn the_adapter_that_was_changed_is_the_one_taken_back() {
    let mut s = Session::new();
    s.on_iface_selected("LAN", false);
    s.settings_applied("LAN", 0);
    s.on_iface_selected("WiFi", false);
    s.settings_applied("WiFi", 60_000);
    let tick = s.tick_revert_countdown(AUTO_REVERT_MS);
    assert_eq!(tick.due, vec!["LAN"]);
    assert_eq!(tick.line.as_deref(), Some("Reverting automatically in 61s unless you click Keep."));
    s.settings_reverted("LAN");
    assert!(s.is_applied() && s.can_keep());
    let tick = s.tick_revert_countdown(AUTO_REVERT_MS + 60_000);
    assert_eq!(tick.due, vec!["WiFi"]);
}

#[test]
fn a_second_change_starts_the_time_again() {
    let mut s = Session::new();
    s.on_iface_selected("LAN", false);
    s.settings_applied("LAN", 0);
    s.settings_applied("LAN", 100_000);
    assert!(s.tick_revert_countdown(AUTO_REVERT_MS).due.is_empty());
    assert_eq!(s.tick_revert_countdown(100_000 + AUTO_REVERT_MS).due, vec!["LAN"]);
}

#[test]
fn apply_is_judged_before_anything_is_done() {
    let mut s = Session::new();
    assert_eq!(
        on_apply(&s, "10.0.0.5", "255.0.0.0", "", false),
        Err(dialog("No adapter selected", "Pick an adapter first."))
    );
    s.on_iface_selected("LAN", false);
    assert_eq!(
        on_apply(&s, "10.0.0", "255.0.0.0", "", false),
        Err(dialog("Invalid settings", "IP address: '10.0.0' is not a valid IPv4 address (expected 4 octets)"))
    );
    let (iface, steps) = on_apply(&s, "10.0.0.5", "255.0.0.0", "", false).unwrap();
    assert_eq!(iface, "LAN");
    let change = Step::Netsh(apply_static("LAN", "10.0.0.5", "255.0.0.0", ""));
    assert_eq!(steps, vec![Step::SaveBackup, change.clone()]);
    assert_eq!(apply_failed(&Step::SaveBackup, "full"), dialog("Could not save backup", "full"));
    assert_eq!(apply_failed(&change, "denied"), dialog("Apply failed", "denied"));
}

#[test]
fn statuses_name_the_adapter() {
    assert_eq!(applied_status("LAN"), "Applied static config to 'LAN'.");
    assert_eq!(reverted_status("LAN"), "Reverted 'LAN' to its original settings.");
}

#[test]
fn failed_reverts_are_told_together() {
    assert_eq!(revert_all_backups_silently(&[]), None);
    let failures = [("LAN".to_string(), "denied".to_string()), ("WiFi".to_string(), "gone".to_string())];
    assert_eq!(
        revert_all_backups_silently(&failures),
        Some(dialog(
            "Could not fully revert",
            "Some adapters could not be reverted automatically:\n\nLAN: denied\nWiFi: gone"
        ))
    );
}

fn backup_of(name: &str) -> BackupFile {
    let mut cfg = config(true, None, None, None);
    cfg.name = name.to_string();
    backup_current_config(Ok(cfg)).unwrap()
}

#[test]
fn every_backup_is_tried_also_after_a_failure() {
    let backups = [backup_of("LAN"), backup_of("WiFi"), backup_of("USB")];
    let mut all = RevertAll::new(&backups);
    let mut tried = Vec::new();
    while let Some(name) = all.current() {
        all.report(if name == "LAN" { Err("denied".to_string()) } else { Ok(()) });
        tried.push(name);
    }
    assert_eq!(tried, vec!["LAN", "WiFi", "USB"]);
    let text = "Some adapters could not be reverted automatically:\n\nLAN: denied";
    assert_eq!(all.ending("done"), Ending::Failed(dialog("Could not fully revert", text)));
}

#[test]
fn backups_that_are_all_put_back_are_told_in_a_line() {
    let mut all = RevertAll::new(&[backup_of("LAN")]);
    assert_eq!(all.current().as_deref(), Some("LAN"));
    all.report(Ok(()));
    assert_eq!(all.current(), None);
    assert_eq!(all.ending("done"), Ending::Status("done".to_string()));
    let none = RevertAll::new(&[]);
    assert_eq!(none.current(), None);
    assert_eq!(none.ending("done"), Ending::Nothing);
}

#[test]
fn a_change_of_another_adapter_is_not_shown_as_one_of_the_selected() {
    let mut s = Session::new();
    s.on_iface_selected("WiFi", false);
    s.settings_applied("LAN", 0);
    assert!(!s.is_applied());
    assert!(s.can_keep());
    assert_eq!(s.tick_revert_countdown(AUTO_REVERT_MS).due, vec!["LAN"]);
}

#[test]
fn subnets_are_saved_and_removed_again() {
    let mut list: Vec<CustomSubnet> = vec![];
    assert_eq!(
        on_save_subnet(&mut list, "x", "255.0.0.0"),
        Err(dialog("No subnet to save", "Enter a valid IP address first."))
    );
    assert_eq!(
        on_save_subnet(&mut list, "10.0.0.5", "x"),
        Err(dialog("Invalid subnet mask", "'x' is not a valid subnet mask"))
    );
    assert!(list.is_empty());
    let (toggle, base) = on_save_subnet(&mut list, "10.0.0.5", "255.0.0.0").unwrap();
    assert_eq!((toggle, base.as_str(), list.len()), (Toggle::Added, "10.0.0", 1));
    assert_eq!(
        subnet_stored(&mut list, toggle, &base, "255.0.0.0", Ok(())),
        Ok("Saved 10.0.0.0/24 (255.0.0.0) \u{2014} tried first on every auto-detect from now on. \
Click Save subnet again with the same values to remove it. (1 saved total)"
            .to_string())
    );
    let (toggle, base) = on_save_subnet(&mut list, "10.0.0.9", "255.0.0.0").unwrap();
    assert_eq!((toggle, list.len()), (Toggle::Removed, 0));
    assert_eq!(
        subnet_stored(&mut list, toggle, &base, "255.0.0.0", Ok(())),
        Ok("Removed 10.0.0.0/24 (255.0.0.0) from saved subnets (0 remaining).".to_string())
    );
}

#[test]
fn a_subnet_that_could_not_be_stored_leaves_the_list() {
    let mut list: Vec<CustomSubnet> = vec![];
    let (toggle, base) = on_save_subnet(&mut list, "10.0.0.5", "255.0.0.0").unwrap();
    assert_eq!(
        subnet_stored(&mut list, toggle, &base, "255.0.0.0", Err("full".to_string())),
        Err(dialog("Could not save subnet", "full"))
    );
    assert!(list.is_empty());
    assert_eq!(
        subnet_stored(&mut list, Toggle::Removed, &base, "255.0.0.0", Err("full".to_string())),
        Err(dialog("Could not update saved subnets", "full"))
    );
}

#[test]
fn searches_need_an_adapter_and_rest() {
    let mut s = Session::new();
    let no_adapter = Answer::Refused(dialog("No adapter selected", "Pick an adapter first."));
    assert_eq!(on_autodetect(&s, true, false), no_adapter);
    s.on_iface_selected("LAN", false);
    assert_eq!(on_autodetect(&s, true, false), Answer::Busy);
    assert_eq!(on_autodetect(&s, false, true), Answer::Busy);
    assert_eq!(on_autodetect(&s, false, false), Answer::Go("LAN".to_string()));
}

#[test]
fn searches_need_a_backup() {
    let missing = begin_search(None, &[]);
    assert_eq!(missing.err(), Some(dialog("Error", "Backup missing unexpectedly.")));
    let backup = backup_current_config(Ok(config(true, None, None, None))).unwrap();
    let mut search = begin_search(Some(backup), &[]).ok().unwrap();
    assert_eq!(search.phase(), Phase::Ready);
    let (events, _) = run(&mut search, Input::Next { cancelled: false });
    let first =
        AutoDetectEvent::TryingCandidate { base: "192.168.1".to_string(), mask: "255.255.255.0".to_string() };
    assert_eq!(events, vec![first]);
}

#[test]
fn events_of_a_search_are_shown() {
    let base = || "10.0.0".to_string();
    let mask = || "255.0.0.0".to_string();
    let status = |e: AutoDetectEvent| drain_autodetect_events(&e).status;
    assert_eq!(status(AutoDetectEvent::TryingCandidate { base: base(), mask: mask() }), "Trying 10.0.0.0/24...");
    assert_eq!(
        status(AutoDetectEvent::CandidateResult { base: base(), host_count: 12 }),
        "10.0.0.0/24: 12 response(s)."
    );
    assert_eq!(
        status(AutoDetectEvent::NotFound),
        "No devices found on common subnets. Enter values manually."
    );
    assert_eq!(status(AutoDetectEvent::Cancelled), "Auto-detect cancelled; original settings restored.");
    assert_eq!(status(AutoDetectEvent::Error("x".to_string())), "Auto-detect error: x");
    let found = drain_autodetect_events(&AutoDetectEvent::Found { base: base(), mask: mask() });
    assert_eq!(
        found.status,
        "Found live device(s) on 10.0.0.0/24 \u{2014} review below, then Apply to keep it or Revert to undo."
    );
    assert_eq!(found.ip.as_deref(), Some("10.0.0.250"));
    assert_eq!(found.mask.as_deref(), Some("255.0.0.0"));
    assert!(found.found);
    assert!(!drain_autodetect_events(&AutoDetectEvent::NotFound).found);
}

#[test]
fn scans_need_an_address_and_rest() {
    assert_eq!(on_scan(true, false, "x"), Answer::Busy);
    assert_eq!(on_scan(false, true, "x"), Answer::Busy);
    assert_eq!(
        on_scan(false, false, "x"),
        Answer::Refused(dialog(
            "No base subnet",
            "Enter an IP address first (its first 3 octets are used as the /24 to scan)."
        ))
    );
    assert_eq!(on_scan(false, false, "10.0.0.5"), Answer::Go("10.0.0".to_string()));
}
