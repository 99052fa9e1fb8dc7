use ip_config_tool::subnets::{contains, remove, toggle, CustomSubnet, Toggle};

#[test]
fn contains_finds_exact_base_and_mask_match() {
    let list = vec![CustomSubnet { base: "198.120.0".into(), mask: "255.255.255.0".into(), label: None }];
    assert!(contains(&list, "198.120.0", "255.255.255.0"));
    assert!(!contains(&list, "198.120.0", "255.255.0.0"));
    assert!(!contains(&list, "10.0.0", "255.255.255.0"));
}

#[test]
fn remove_deletes_matching_entry_and_reports_it() {
    let mut list = vec![
        CustomSubnet { base: "198.120.0".into(), mask: "255.255.255.0".into(), label: None },
        CustomSubnet { base: "10.10.10".into(), mask: "255.255.255.0".into(), label: None },
    ];
    assert!(remove(&mut list, "198.120.0", "255.255.255.0"));
    assert_eq!(list.len(), 1);
    assert_eq!(list[0].base, "10.10.10");
}

#[test]
fn remove_of_absent_entry_is_a_no_op_and_reports_false() {
    let mut list = vec![CustomSubnet { base: "10.10.10".into(), mask: "255.255.255.0".into(), label: None }];
    assert!(!remove(&mut list, "198.120.0", "255.255.255.0"));
    assert_eq!(list.len(), 1);
}

fn entry(base: &str, mask: &str) -> CustomSubnet {
    CustomSubnet { base: base.to_string(), mask: mask.to_string(), label: None }
}

#[test]
fn remove_takes_every_entry_that_matches_and_keeps_the_order() {
    let mut list = vec![entry("a", "m"), entry("b", "m"), entry("a", "m"), entry("a", "n"), entry("c", "m")];
    assert!(remove(&mut list, "a", "m"));
    assert_eq!(list, vec![entry("b", "m"), entry("a", "n"), entry("c", "m")]);
    assert!(!contains(&list, "a", "m"));
}

#[test]
fn toggle_twice_leaves_the_list_as_it_was() {
    let mut list = vec![entry("10.0.0", "255.255.255.0")];
    assert_eq!(toggle(&mut list, "198.120.0", "255.255.255.0"), Toggle::Added);
    assert_eq!(list, vec![entry("10.0.0", "255.255.255.0"), entry("198.120.0", "255.255.255.0")]);
    assert_eq!(toggle(&mut list, "198.120.0", "255.255.255.0"), Toggle::Removed);
    assert_eq!(list, vec![entry("10.0.0", "255.255.255.0")]);
}
