use ip_config_tool::netconfig::{
    apply_static, backup_current_config, backup_file_name, is_backup_file, list_orphan_backups, load_backup,
    plan_apply, plan_search, revert, run_netsh, sanitize_name, set_dhcp, set_static_dns, BackupFile, Run, Step,
};
use ip_config_tool::netiface::{parse_show_config, InterfaceConfig, SCHEMA_VERSION};
use ip_config_tool::process::Outcome;

fn sample_config(name: &str) -> InterfaceConfig {
    InterfaceConfig {
        name: name.to_string(),
        dhcp: false,
        ip: Some("192.168.1.250".to_string()),
        mask: Some("255.255.255.0".to_string()),
        gateway: Some("192.168.1.1".to_string()),
        dns: vec!["8.8.8.8".to_string()],
        static_dns: true,
    }
}

fn netsh(args: &[&str]) -> Step {
    Step::Netsh(args.iter().map(|a| a.to_string()).collect())
}

#[test]
fn sanitize_name_strips_unsafe_chars() {
    assert_eq!(sanitize_name("Ethernet 2"), "Ethernet_2");
    assert_eq!(sanitize_name("vEthernet (Default Switch)"), "vEthernet__Default_Switch_");
}

#[test]
fn sanitize_name_keeps_length_and_is_stable() {
    let once = sanitize_name("a-b_c/\u{e9}.");
    assert_eq!(once, "a-b_c___");
    assert_eq!(sanitize_name(&once), once);
}

#[test]
fn backup_round_trips_through_disk() {
    let cfg = sample_config("__unit_test_iface_a__");
    let saved = backup_current_config(Ok(cfg.clone())).unwrap();

    let loaded = load_backup(Some(saved)).expect("backup should be found");
    assert_eq!(loaded.config, cfg);
    assert_eq!(loaded.schema_version, SCHEMA_VERSION);
}

#[test]
fn missing_backup_returns_none() {
    assert!(load_backup(None).is_none());
}

#[test]
fn wrong_schema_version_is_ignored() {
    let cfg = sample_config("__unit_test_iface_b__");
    let mut backup = BackupFile { schema_version: SCHEMA_VERSION, config: cfg.clone() };
    backup.schema_version = SCHEMA_VERSION + 999;

    assert!(load_backup(Some(backup.clone())).is_none());
    assert!(revert(&cfg.name, Some(backup)).is_err());
}

#[test]
fn orphan_scan_finds_saved_backups() {
    let cfg = sample_config("__unit_test_iface_orphan__");
    let saved = backup_current_config(Ok(cfg.clone())).unwrap();
    let stale = BackupFile { schema_version: 2, config: sample_config("old") };
    let entries = vec![
        ("notes.json".to_string(), Some(saved.clone())),
        (backup_file_name("old"), Some(stale)),
        (backup_file_name("broken"), None),
        (backup_file_name(&cfg.name), Some(saved.clone())),
    ];

    let orphans = list_orphan_backups(entries);
    assert!(orphans.iter().any(|b| b.config.name == cfg.name));
    assert_eq!(orphans, vec![saved]);
}

#[test]
fn backup_files_are_known_by_their_names() {
    assert_eq!(backup_file_name("Ethernet 2"), "ip-config-tool-backup-Ethernet_2.json");
    assert!(is_backup_file("ip-config-tool-backup-Ethernet_2.json"));
    assert!(!is_backup_file("ip-config-tool-backup-Ethernet_2.txt"));
    assert!(!is_backup_file("my-ip-config-tool-backup-x.json"));
    assert!(!is_backup_file(""));
}

#[test]
fn unreadable_config_gives_no_backup() {
    assert_eq!(backup_current_config(Err("denied".to_string())), Err("denied".to_string()));
}

#[test]
fn fixed_address_is_set_with_or_without_gateway() {
    let with = ["interface", "ip", "set", "address", "name=Ethernet 2", "static", "10.0.0.5", "255.0.0.0", "10.0.0.1"];
    assert_eq!(apply_static("Ethernet 2", "10.0.0.5", "255.0.0.0", " 10.0.0.1 "), with);
    assert_eq!(apply_static("Ethernet 2", "10.0.0.5", "255.0.0.0", "  "), with[..8]);
}

#[test]
fn dhcp_covers_address_and_name_servers() {
    assert_eq!(
        set_dhcp("LAN"),
        vec![
            netsh(&["interface", "ip", "set", "address", "name=LAN", "dhcp"]),
            netsh(&["interface", "ip", "set", "dns", "name=LAN", "dhcp"]),
        ]
    );
}

#[test]
fn first_name_server_is_set_and_others_are_added() {
    let dns = vec!["1.1.1.1".to_string(), "8.8.8.8".to_string()];
    assert_eq!(
        set_static_dns("LAN", &dns),
        vec![
            netsh(&["interface", "ip", "set", "dns", "name=LAN", "1.1.1.1"]),
            netsh(&["interface", "ip", "add", "dns", "name=LAN", "8.8.8.8"]),
        ]
    );
    assert!(set_static_dns("LAN", &[]).is_empty());
}

#[test]
fn revert_restores_a_fixed_address_and_then_deletes_the_backup() {
    let backup = backup_current_config(Ok(sample_config("LAN"))).unwrap();
    assert_eq!(
        revert("LAN", Some(backup)).unwrap(),
        vec![
            netsh(&[
                "interface", "ip", "set", "address", "name=LAN", "static", "192.168.1.250", "255.255.255.0",
                "192.168.1.1",
            ]),
            netsh(&["interface", "ip", "set", "dns", "name=LAN", "8.8.8.8"]),
            Step::DeleteBackup,
        ]
    );
}

#[test]
fn revert_of_dhcp_and_of_nothing() {
    let mut expected = set_dhcp("LAN");
    expected.push(Step::DeleteBackup);
    for (static_dns, dns) in [(false, vec!["8.8.8.8".to_string()]), (false, vec![]), (true, vec![])] {
        let mut cfg = sample_config("LAN");
        cfg.dhcp = true;
        cfg.static_dns = static_dns;
        cfg.dns = dns;
        let steps = revert("LAN", Some(backup_current_config(Ok(cfg)).unwrap())).unwrap();
        assert_eq!(steps, expected);
    }

    let mut cfg = sample_config("LAN");
    cfg.mask = None;
    let steps = revert("LAN", Some(backup_current_config(Ok(cfg)).unwrap())).unwrap();
    assert_eq!(steps, vec![Step::DeleteBackup]);
}

#[test]
fn revert_of_dhcp_keeps_name_servers_that_were_set_by_hand() {
    let report = "DHCP enabled: Yes\nIP Address: 10.0.0.5\nStatically Configured DNS Servers: 8.8.8.8\n  1.1.1.1\n";
    let backup = backup_current_config(parse_show_config(report, "LAN")).unwrap();
    assert_eq!(
        revert("LAN", Some(backup)).unwrap(),
        vec![
            netsh(&["interface", "ip", "set", "address", "name=LAN", "dhcp"]),
            netsh(&["interface", "ip", "set", "dns", "name=LAN", "8.8.8.8"]),
            netsh(&["interface", "ip", "add", "dns", "name=LAN", "1.1.1.1"]),
            Step::DeleteBackup,
        ]
    );
}

#[test]
fn revert_without_backup_says_so() {
    assert_eq!(
        revert("LAN", None),
        Err("No saved backup found for 'LAN' \u{2014} nothing to revert to".to_string())
    );
}

#[test]
fn a_change_is_backed_up_first() {
    let change = Step::Netsh(apply_static("LAN", "10.0.0.5", "255.0.0.0", ""));
    assert_eq!(plan_apply("LAN", "10.0.0.5", "255.0.0.0", "", false), vec![Step::SaveBackup, change.clone()]);
    assert_eq!(plan_apply("LAN", "10.0.0.5", "255.0.0.0", "", true), vec![change]);
}

#[test]
fn a_search_is_backed_up_first() {
    assert_eq!(plan_search(false), vec![Step::SaveBackup]);
    assert!(plan_search(true).is_empty());
    assert_eq!(Run::new(plan_search(true)).outcome(), Ok(()));
}

#[test]
fn a_run_goes_through_its_steps() {
    let steps = vec![Step::SaveBackup, Step::DeleteBackup];
    let mut run = Run::new(steps);
    assert_eq!(run.current(), Some(&Step::SaveBackup));
    run.report(Ok(()));
    assert_eq!(run.current(), Some(&Step::DeleteBackup));
    run.report(Ok(()));
    assert_eq!(run.current(), None);
    assert_eq!(run.outcome(), Ok(()));
}

#[test]
fn a_run_stops_at_the_first_failure() {
    let backup = backup_current_config(Ok(sample_config("LAN"))).unwrap();
    let steps = revert("LAN", Some(backup)).unwrap();
    let mut run = Run::new(steps.clone());
    run.report(Ok(()));
    run.report(Err("denied".to_string()));
    assert_eq!(run.current(), None);
    assert_eq!(run.outcome(), Err((steps[1].clone(), "denied".to_string())));
}

#[test]
fn netsh_failures_are_told() {
    let ended = |success: bool| Outcome::Ended { success, stdout: "o".to_string(), stderr: "e".to_string() };
    assert_eq!(run_netsh("[]", ended(true)), Ok(()));
    assert_eq!(run_netsh("[]", ended(false)), Err("netsh [] failed: eo".to_string()));
    assert_eq!(
        run_netsh("[]", Outcome::NotStarted("x".to_string())),
        Err("failed to launch netsh: x".to_string())
    );
}

#[test]
fn different_settings_are_put_back_by_different_commands() {
    let steps = |change: &dyn Fn(&mut InterfaceConfig)| {
        let mut cfg = sample_config("LAN");
        change(&mut cfg);
        revert("LAN", Some(backup_current_config(Ok(cfg)).unwrap())).unwrap()
    };
    let same = steps(&|_| {});
    assert_eq!(steps(&|c| c.gateway = Some(" 192.168.1.1 ".to_string())), same);
    assert_ne!(steps(&|c| c.dhcp = true), same);
    assert_ne!(steps(&|c| c.ip = Some("192.168.1.251".to_string())), same);
    assert_ne!(steps(&|c| c.mask = Some("255.255.0.0".to_string())), same);
    assert_ne!(steps(&|c| c.gateway = None), same);
    assert_ne!(steps(&|c| c.dns = vec![]), same);

    let dhcp = |static_dns: bool, server: &str| {
        steps(&|c| {
            c.dhcp = true;
            c.static_dns = static_dns;
            c.dns = vec![server.to_string()];
        })
    };
    assert_ne!(dhcp(true, "8.8.8.8"), dhcp(false, "8.8.8.8"));
    assert_ne!(dhcp(true, "8.8.8.8"), dhcp(true, "1.1.1.1"));
    assert_eq!(dhcp(false, "8.8.8.8"), dhcp(false, "1.1.1.1"));
}
