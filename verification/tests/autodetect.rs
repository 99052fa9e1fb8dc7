use ip_config_tool::autodetect::{
    candidate_has_match, candidates, pick_match, probe_args, probe_ip, run, Action, AutoDetectEvent, Detector, Input, Phase,
    CANDIDATES, PROBE_HOST_OCTET,
};
use ip_config_tool::scanner::ScanResult;
use ip_config_tool::subnets::CustomSubnet;

fn hit(ip: &str) -> ScanResult {
    ScanResult { ip: ip.to_string(), mac: "AA-BB-CC-DD-EE-FF".to_string() }
}

#[test]
fn candidate_with_a_response_is_a_match() {
    let results = vec![hit("192.168.1.5")];
    assert!(candidate_has_match("192.168.1", "192.168.1.250", &results));
}

#[test]
fn candidate_with_only_the_probes_own_ip_is_not_a_match() {
    let results = vec![hit("192.168.1.250")];
    assert!(!candidate_has_match("192.168.1", "192.168.1.250", &results));
}

#[test]
fn candidate_with_no_responses_is_not_a_match() {
    assert!(!candidate_has_match("192.168.1", "192.168.1.250", &[]));
}

#[test]
fn pick_match_stops_at_first_matching_candidate_in_priority_order() {
    let candidates: Vec<(&str, &str)> = vec![("192.168.1", "255.255.255.0"), ("10.0.0", "255.255.255.0")];
    let mut tried = Vec::new();

    let result = pick_match(&candidates, |base, _mask| {
        tried.push(base.to_string());
        if base == "192.168.1" {
            vec![hit("192.168.1.9")]
        } else {
            vec![hit("10.0.0.9")]
        }
    });

    assert_eq!(result, Some(("192.168.1".to_string(), "255.255.255.0".to_string())));
    // Must not have tried the second candidate once the first matched.
    assert_eq!(tried, vec!["192.168.1"]);
}

#[test]
fn pick_match_falls_through_to_second_candidate_when_first_has_no_match() {
    let candidates: Vec<(&str, &str)> = vec![("192.168.1", "255.255.255.0"), ("10.0.0", "255.255.255.0")];

    let result = pick_match(&candidates, |base, _mask| {
        if base == "192.168.1" {
            vec![]
        } else {
            vec![hit("10.0.0.9")]
        }
    });

    assert_eq!(result, Some(("10.0.0".to_string(), "255.255.255.0".to_string())));
}

#[test]
fn pick_match_returns_none_when_nothing_matches() {
    let candidates: Vec<(&str, &str)> = vec![("192.168.1", "255.255.255.0")];
    let result = pick_match(&candidates, |_base, _mask| vec![]);
    assert_eq!(result, None);
}

#[test]
fn candidates_list_is_in_expected_priority_order() {
    assert_eq!(CANDIDATES[0], ("192.168.1", "255.255.255.0"));
    assert_eq!(CANDIDATES[1], ("192.168.0", "255.255.255.0"));
}

#[test]
fn probe_address_is_high_in_the_subnet() {
    assert_eq!(PROBE_HOST_OCTET, 250);
    assert_eq!(probe_ip("192.168.1"), "192.168.1.250");
}

#[test]
fn saved_subnets_are_tried_first() {
    let saved = vec![CustomSubnet {
        base: "198.120.0".to_string(),
        mask: "255.255.0.0".to_string(),
        label: Some("gateway".to_string()),
    }];
    let list = candidates(&saved);
    assert_eq!(list.len(), 7);
    assert_eq!(list[0], ("198.120.0".to_string(), "255.255.0.0".to_string()));
    assert_eq!(list[1], ("192.168.1".to_string(), "255.255.255.0".to_string()));
    assert_eq!(list[6], ("172.16.0".to_string(), "255.255.255.0".to_string()));
}

fn two() -> Detector {
    Detector::new(vec![
        ("192.168.1".to_string(), "255.255.255.0".to_string()),
        ("10.0.0".to_string(), "255.0.0.0".to_string()),
    ])
}

fn trying(base: &str, mask: &str) -> AutoDetectEvent {
    AutoDetectEvent::TryingCandidate { base: base.to_string(), mask: mask.to_string() }
}

fn counted(base: &str, host_count: usize) -> AutoDetectEvent {
    AutoDetectEvent::CandidateResult { base: base.to_string(), host_count }
}

#[test]
fn search_finds_a_device_and_leaves_the_interface() {
    let mut search = two();
    let (events, action) = run(&mut search, Input::Next { cancelled: false });
    assert_eq!(events, vec![trying("192.168.1", "255.255.255.0")]);
    assert_eq!(action, Action::Apply { ip: "192.168.1.250".to_string(), mask: "255.255.255.0".to_string() });
    assert_eq!(search.phase(), Phase::Applying);
    let (events, action) = run(&mut search, Input::Applied(Ok(())));
    assert!(events.is_empty());
    assert_eq!(action, Action::Sweep { base: "192.168.1".to_string() });
    let (events, action) = run(&mut search, Input::Swept(vec![hit("192.168.1.250")]));
    assert_eq!(events, vec![counted("192.168.1", 1)]);
    assert_eq!(action, Action::Continue);
    run(&mut search, Input::Next { cancelled: false });
    run(&mut search, Input::Applied(Ok(())));
    let (events, action) = run(&mut search, Input::Swept(vec![hit("10.0.0.250"), hit("10.0.0.9")]));
    let found = AutoDetectEvent::Found { base: "10.0.0".to_string(), mask: "255.0.0.0".to_string() };
    assert_eq!(events, vec![counted("10.0.0", 2), found]);
    assert_eq!(action, Action::Stop);
    assert_eq!(search.phase(), Phase::Done);
}

#[test]
fn search_without_a_device_restores() {
    let mut search = two();
    for _ in 0..2 {
        run(&mut search, Input::Next { cancelled: false });
        run(&mut search, Input::Applied(Ok(())));
        run(&mut search, Input::Swept(vec![]));
    }
    let (events, action) = run(&mut search, Input::Next { cancelled: true });
    assert_eq!(events, vec![AutoDetectEvent::NotFound]);
    assert_eq!(action, Action::Restore);
}

#[test]
fn cancelled_search_restores() {
    let mut search = two();
    let (events, action) = run(&mut search, Input::Next { cancelled: true });
    assert_eq!(events, vec![AutoDetectEvent::Cancelled]);
    assert_eq!(action, Action::Restore);
    assert_eq!(search.phase(), Phase::Done);
}

#[test]
fn failed_search_restores() {
    let mut search = two();
    run(&mut search, Input::Next { cancelled: false });
    let (events, action) = run(&mut search, Input::Applied(Err("denied".to_string())));
    assert_eq!(events, vec![AutoDetectEvent::Error("Failed to probe 192.168.1.0/24: denied".to_string())]);
    assert_eq!(action, Action::Restore);
}

#[test]
fn search_does_what_pick_match_does() {
    let list = [("192.168.1", "255.255.255.0"), ("10.0.0", "255.0.0.0"), ("10.0.1", "255.0.0.0")];
    for (base_that_answers, expected_scans) in [("192.168.1", 1), ("10.0.0", 2), ("none", 3)] {
        let sweep = |base: &str| {
            if base == base_that_answers {
                vec![hit("1.2.3.4")]
            } else {
                vec![]
            }
        };
        let mut scanned = Vec::new();
        let picked = pick_match(&list, |base, _| {
            scanned.push(base.to_string());
            sweep(base)
        });

        let mut search = Detector::new(list.iter().map(|(b, m)| (b.to_string(), m.to_string())).collect());
        let mut announced = Vec::new();
        let mut last_address = None;
        let mut last_event = None;
        let mut input = Input::Next { cancelled: false };
        while search.phase() != Phase::Done {
            let (events, action) = run(&mut search, input);
            for event in events {
                if let AutoDetectEvent::TryingCandidate { base, .. } = &event {
                    announced.push(base.clone());
                }
                last_event = Some(event);
            }
            input = match action {
                Action::Apply { ip, mask } => {
                    last_address = Some((ip, mask));
                    Input::Applied(Ok(()))
                }
                Action::Sweep { base } => Input::Swept(sweep(&base)),
                Action::Continue | Action::Restore | Action::Stop => Input::Next { cancelled: false },
            };
        }

        assert_eq!(scanned.len(), expected_scans);
        assert_eq!(announced, scanned);
        match picked {
            Some((base, mask)) => {
                assert_eq!(last_address, Some((format!("{base}.250"), mask.clone())));
                assert_eq!(last_event, Some(AutoDetectEvent::Found { base, mask }));
            }
            None => assert_eq!(last_event, Some(AutoDetectEvent::NotFound)),
        }
    }
}

#[test]
fn probes_have_no_gateway() {
    assert_eq!(
        probe_args("LAN", "10.0.0.250", "255.0.0.0"),
        vec!["interface", "ip", "set", "address", "name=LAN", "static", "10.0.0.250", "255.0.0.0"]
    );
}
