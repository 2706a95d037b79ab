use make_your_choice::hosts::{all_regions, redirect_endpoints, HostsError, HostsManager};
use make_your_choice::conflicts::is_managed_lowered;
use make_your_choice::policy::{gatekeep_allow_set, is_probe_lowered};
use make_your_choice::region::{BlockMode, RegionInfo};
use make_your_choice::section::SECTION_MARKER;

const URL: &str = "https://discord.example/invite";

fn region(name: &str, hosts: &[&str], stable: bool) -> (String, RegionInfo) {
    (
        name.to_string(),
        RegionInfo { hosts: hosts.iter().map(|h| h.to_string()).collect(), stable },
    )
}

fn three_regions() -> Vec<(String, RegionInfo)> {
    vec![
        region("Europe (Ireland)", &["gamelift.eu-west-1.amazonaws.com", "gamelift-ping.eu-west-1.api.aws"], true),
        region("Europe (London)", &["gamelift.eu-west-2.amazonaws.com", "gamelift-ping.eu-west-2.api.aws"], false),
        region("US East (N. Virginia)", &["gamelift.us-east-1.amazonaws.com", "gamelift-ping.us-east-1.api.aws"], true),
    ]
}

fn always_blocked() -> Vec<(String, RegionInfo)> {
    vec![region("Europe (Paris)", &["gamelift.eu-west-3.amazonaws.com", "gamelift-ping.eu-west-3.api.aws"], true)]
}

fn names(v: &[&str]) -> Vec<String> {
    v.iter().map(|s| s.to_string()).collect()
}

fn block(content: &str) -> String {
    format!("{}\n{}{}\n", SECTION_MARKER, content, SECTION_MARKER)
}

fn gate_header() -> String {
    format!(
        "# Edited by Make Your Choice (DbD Server Selector)\n# Unselected servers are blocked (Gatekeep Mode); selected servers are commented out.\n# Need help? Discord: {}\n\n",
        URL
    )
}

#[test]
fn gatekeep_one_stable_region_of_three() {
    let m = HostsManager::new(URL.to_string());
    let r = m
        .apply_gatekeep("", &three_regions(), &always_blocked(), &names(&["Europe (Ireland)"]), BlockMode::Both, false)
        .unwrap();
    let mut content = gate_header();
    for (name, info) in three_regions() {
        let prefix = if name == "Europe (Ireland)" { "#" } else { "0.0.0.0" };
        for h in &info.hosts {
            content.push_str(&format!("{:9} {}\n", prefix, h));
        }
        content.push('\n');
    }
    for (_, info) in always_blocked() {
        for h in &info.hosts {
            content.push_str(&format!("{:9} {}\n", "0.0.0.0", h));
        }
    }
    assert_eq!(r, format!("\n\n{}", block(&content)));
    assert!(r.contains("#         gamelift.eu-west-1.amazonaws.com\n"));
    assert!(r.contains("0.0.0.0   gamelift-ping.eu-west-2.api.aws\n"));
    assert!(r.contains("0.0.0.0   gamelift.us-east-1.amazonaws.com\n"));
    assert!(r.contains("0.0.0.0   gamelift-ping.eu-west-3.api.aws\n"));
}

#[test]
fn gatekeep_only_ping_writes_probe_endpoints() {
    let m = HostsManager::new(URL.to_string());
    let r = m
        .apply_gatekeep("", &three_regions(), &always_blocked(), &names(&["Europe (Ireland)"]), BlockMode::OnlyPing, false)
        .unwrap();
    assert!(r.contains("#         gamelift-ping.eu-west-1.api.aws\n"));
    assert!(!r.contains("gamelift.eu-west-1.amazonaws.com"));
    assert!(!r.contains("gamelift.us-east-1.amazonaws.com"));
    assert!(r.contains("0.0.0.0   gamelift.eu-west-3.amazonaws.com\n"));
}

#[test]
fn gatekeep_only_service_writes_service_endpoints() {
    let m = HostsManager::new(URL.to_string());
    let r = m
        .apply_gatekeep("", &three_regions(), &always_blocked(), &names(&["Europe (Ireland)"]), BlockMode::OnlyService, false)
        .unwrap();
    assert!(r.contains("#         gamelift.eu-west-1.amazonaws.com\n"));
    assert!(!r.contains("gamelift-ping.eu-west-1.api.aws"));
    assert!(r.contains("0.0.0.0   gamelift.us-east-1.amazonaws.com\n"));
}

#[test]
fn gatekeep_refuses_empty_selection() {
    let m = HostsManager::new(URL.to_string());
    let r = m.apply_gatekeep("a\n", &three_regions(), &always_blocked(), &Vec::new(), BlockMode::Both, true);
    assert_eq!(r, Err(HostsError::NothingSelected));
}

#[test]
fn gatekeep_is_idempotent_on_the_file() {
    let m = HostsManager::new(URL.to_string());
    let sel = names(&["US East (N. Virginia)"]);
    let once = m.apply_gatekeep("127.0.0.1 localhost\n", &three_regions(), &always_blocked(), &sel, BlockMode::Both, true).unwrap();
    let twice = m.apply_gatekeep(&once, &three_regions(), &always_blocked(), &sel, BlockMode::Both, true).unwrap();
    assert_eq!(once, twice);
    assert!(once.starts_with("127.0.0.1 localhost\n"));
}

#[test]
fn merge_adds_stable_stand_in_of_same_group() {
    let allow = gatekeep_allow_set(&three_regions(), &names(&["Europe (London)"]), true);
    assert_eq!(allow, names(&["Europe (London)", "Europe (Ireland)"]));
    let m = HostsManager::new(URL.to_string());
    let r = m
        .apply_gatekeep("", &three_regions(), &always_blocked(), &names(&["Europe (London)"]), BlockMode::Both, true)
        .unwrap();
    assert!(r.contains("#         gamelift.eu-west-1.amazonaws.com\n"));
    assert!(r.contains("#         gamelift.eu-west-2.amazonaws.com\n"));
    assert!(r.contains("0.0.0.0   gamelift.us-east-1.amazonaws.com\n"));
}

#[test]
fn merge_not_applied_when_a_stable_region_is_selected() {
    let allow = gatekeep_allow_set(&three_regions(), &names(&["Europe (London)", "US East (N. Virginia)"]), true);
    assert_eq!(allow, names(&["Europe (London)", "US East (N. Virginia)"]));
}

#[test]
fn merge_not_applied_when_disabled() {
    let allow = gatekeep_allow_set(&three_regions(), &names(&["Europe (London)"]), false);
    assert_eq!(allow, names(&["Europe (London)"]));
}

#[test]
fn merge_without_stable_alternative_adds_nothing() {
    let cat = vec![region("Asia Pacific (Tokyo)", &["t"], false), region("Europe (Ireland)", &["i"], true)];
    let allow = gatekeep_allow_set(&cat, &names(&["Asia Pacific (Tokyo)"]), true);
    assert_eq!(allow, names(&["Asia Pacific (Tokyo)"]));
}

#[test]
fn universal_redirect_points_every_endpoint_at_selected_addresses() {
    let m = HostsManager::new(URL.to_string());
    let sel = names(&["US East (N. Virginia)"]);
    let (service, ping) = redirect_endpoints(&three_regions(), &sel).unwrap();
    assert_eq!(service, "gamelift.us-east-1.amazonaws.com");
    assert_eq!(ping, "gamelift-ping.us-east-1.api.aws");
    let r = m
        .apply_universal_redirect(
            "",
            &three_regions(),
            &always_blocked(),
            "US East (N. Virginia)",
            Some("3.3.3.3".to_string()),
            Some("4.4.4.4".to_string()),
        )
        .unwrap();
    for (_, info) in three_regions() {
        for h in &info.hosts {
            let ip = if h.contains("ping") { "4.4.4.4" } else { "3.3.3.3" };
            assert!(r.contains(&format!("\n{} {}\n", ip, h)), "{}", h);
        }
    }
    assert!(r.contains("\n0.0.0.0 gamelift.eu-west-3.amazonaws.com\n"));
    assert!(r.contains("# Universal Redirect mode: redirect all GameLift endpoints to selected region\n"));
}

#[test]
fn universal_redirect_matches_ping_case_insensitively() {
    let m = HostsManager::new(URL.to_string());
    let cat = vec![region("US West (Oregon)", &["svc.example", "GameLift-PING.example"], true)];
    let r = m
        .apply_universal_redirect("", &cat, &Vec::new(), "US West (Oregon)", Some("3.3.3.3".to_string()), Some("4.4.4.4".to_string()))
        .unwrap();
    assert!(r.contains("\n4.4.4.4 GameLift-PING.example\n"));
    assert!(r.contains("\n3.3.3.3 svc.example\n"));
}

#[test]
fn universal_redirect_errors() {
    let m = HostsManager::new(URL.to_string());
    let r = m.apply_universal_redirect("", &three_regions(), &always_blocked(), "Nowhere", Some("1.1.1.1".to_string()), Some("1.1.1.1".to_string()));
    assert_eq!(r, Err(HostsError::UnknownRegion));
    let r = m.apply_universal_redirect("", &three_regions(), &always_blocked(), "Europe (Ireland)", None, Some("1.1.1.1".to_string()));
    assert_eq!(r, Err(HostsError::Unresolved));
    assert_eq!(redirect_endpoints(&three_regions(), &names(&["Europe (Ireland)", "Europe (London)"])), Err(HostsError::NotExactlyOne));
    assert_eq!(redirect_endpoints(&three_regions(), &Vec::new()), Err(HostsError::NotExactlyOne));
    assert_eq!(redirect_endpoints(&three_regions(), &names(&["Nowhere"])), Err(HostsError::UnknownRegion));
    let cat = vec![region("Empty", &[], true)];
    assert_eq!(redirect_endpoints(&cat, &names(&["Empty"])), Err(HostsError::NoEndpoint));
    let cat = vec![region("One", &["only.example"], true)];
    assert_eq!(redirect_endpoints(&cat, &names(&["One"])), Ok(("only.example".to_string(), "only.example".to_string())));
}

#[test]
fn conflict_outside_section_is_reported() {
    let m = HostsManager::new(URL.to_string());
    let d = "127.0.0.1 localhost\n1.2.3.4 gamelift.us-east-1.amazonaws.com\n";
    let c = m.detect_conflicting_entries(d, &three_regions());
    assert_eq!(c, names(&["1.2.3.4 gamelift.us-east-1.amazonaws.com"]));
}

#[test]
fn conflicts_skip_section_comments_and_unmanaged_hosts() {
    let m = HostsManager::new(URL.to_string());
    let d = format!(
        "  1.2.3.4   GAMELIFT.us-east-1.amazonaws.com  \n# 1.2.3.4 gamelift.eu-west-1.amazonaws.com\n5.6.7.8 other.example\ngamelift.eu-west-1.amazonaws.com\n{}1.2.3.4 gamelift.us-east-1.amazonaws.com\n",
        block("0.0.0.0 gamelift.eu-west-1.amazonaws.com\n")
    );
    let c = m.detect_conflicting_entries(&d, &three_regions());
    assert_eq!(c, names(&["1.2.3.4   GAMELIFT.us-east-1.amazonaws.com", "1.2.3.4 gamelift.us-east-1.amazonaws.com"]));
}

#[test]
fn conflicts_are_reported_once() {
    let m = HostsManager::new(URL.to_string());
    let d = "1.2.3.4 gamelift.us-east-1.amazonaws.com\n 1.2.3.4 gamelift.us-east-1.amazonaws.com\n";
    let c = m.detect_conflicting_entries(d, &three_regions());
    assert_eq!(c, names(&["1.2.3.4 gamelift.us-east-1.amazonaws.com"]));
}

#[test]
fn clearing_conflicts_removes_matching_lines_everywhere() {
    let m = HostsManager::new(URL.to_string());
    let d = "a\n 1.2.3.4 h.example \nb\n1.2.3.4 h.example\n";
    let r = m.clear_conflicting_entries(d, &names(&["1.2.3.4 h.example"]));
    assert_eq!(r, "a\nb\n");
    let r = m.clear_conflicting_entries("a\r\nx\nb", &names(&["x"]));
    assert_eq!(r, "a\r\nb");
}

#[test]
fn clearing_keeps_other_lines_byte_for_byte() {
    let m = HostsManager::new(URL.to_string());
    let once = m.clear_conflicting_entries("a\r\r\n", &Vec::new());
    assert_eq!(once, "a\r\r\n");
    assert_eq!(m.clear_conflicting_entries(&once, &Vec::new()), once);
    assert_eq!(m.clear_conflicting_entries("a\nb", &names(&["b"])), "a\n");
    assert_eq!(m.clear_conflicting_entries("x\n", &names(&["x"])), "");
    let d = "a\r\n1.2.3.4 h\r\nb\n";
    let once = m.clear_conflicting_entries(d, &names(&["1.2.3.4 h"]));
    assert_eq!(once, "a\r\nb\n");
    assert_eq!(m.clear_conflicting_entries(&once, &names(&["1.2.3.4 h"])), once);
}

#[test]
fn conflict_lines_are_not_joined_across_the_section() {
    let m = HostsManager::new(URL.to_string());
    let cat = vec![region("US West (Oregon)", &["h"], true)];
    let d = format!("1 {}\n{}\nh\n", SECTION_MARKER, SECTION_MARKER);
    assert!(m.detect_conflicting_entries(&d, &cat).is_empty());
    let d2 = format!("1 {}\n{}\n2 h\n", SECTION_MARKER, SECTION_MARKER);
    assert_eq!(m.detect_conflicting_entries(&d2, &cat), names(&["2 h"]));
}

#[test]
fn lowered_steps() {
    let lowered: Vec<char> = "gamelift-ping.example".chars().collect();
    assert!(is_probe_lowered(&lowered));
    let plain: Vec<char> = "gamelift.example".chars().collect();
    assert!(!is_probe_lowered(&plain));
    let managed = names(&["gamelift.us-east-1.amazonaws.com"]);
    let second: Vec<char> = "gamelift.us-east-1.amazonaws.com".chars().collect();
    assert!(is_managed_lowered(&second, &managed));
    let upper: Vec<char> = "GAMELIFT.us-east-1.amazonaws.com".chars().collect();
    assert!(!is_managed_lowered(&upper, &managed));
}

#[test]
fn managed_hostnames_are_lowercased_and_unique() {
    let m = HostsManager::new(URL.to_string());
    let cat = vec![region("A", &["Svc.Example", "svc.example"], true), region("B", &["PING.example"], true)];
    assert_eq!(m.get_all_managed_hostnames(&cat), names(&["svc.example", "ping.example"]));
}

#[test]
fn blocked_hostnames_come_from_the_section() {
    let m = HostsManager::new(URL.to_string());
    let d = format!(
        "0.0.0.0 outside.example\n{}",
        block("# comment\n#         allowed.example\n0.0.0.0   A.example b.example\n0.0.0.0 a.example\n1.1.1.1 c.example\n")
    );
    assert_eq!(m.get_blocked_hostnames(&d), names(&["a.example", "b.example"]));
    let lone = format!("{}\n0.0.0.0 a.example\n", SECTION_MARKER);
    assert!(m.get_blocked_hostnames(&lone).is_empty());
}

#[test]
fn revert_and_restore_default() {
    let m = HostsManager::new(URL.to_string());
    let d = format!("a\n{}b\n", block("0.0.0.0 x\n"));
    assert_eq!(m.revert(&d), "a\nb\n");
    assert_eq!(m.revert("plain\n"), "plain\n");
    assert_eq!(
        m.restore_default(),
        "# Static table lookup for hostnames.\n# See hosts(5) for details.\n127.0.0.1        localhost\n::1              localhost\n"
    );
}

#[test]
fn all_regions_merges_blocked_over_selectable() {
    let a = three_regions();
    let b = vec![region("Europe (London)", &["x"], true), region("New", &["n"], false)];
    let all = all_regions(&a, &b);
    assert_eq!(all.len(), 4);
    assert_eq!(all[1].0, "Europe (London)");
    assert_eq!(all[1].1.hosts, names(&["x"]));
    assert!(all[1].1.stable);
    assert_eq!(all[3].0, "New");
}

#[test]
fn error_messages() {
    assert_eq!(HostsError::NothingSelected.message(), "Please select at least one server to allow.");
    assert!(HostsError::NotExactlyOne.message().contains("only one server"));
}
