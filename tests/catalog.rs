use make_your_choice::region::{get_blocked_regions, get_group_name, get_selectable_regions, region_group, RegionGroup};
use make_your_choice::traffic::{game_traffic_endpoint, get_color_for_latency};

#[test]
fn catalog_sizes_and_endpoints() {
    let s = get_selectable_regions();
    let b = get_blocked_regions();
    assert_eq!(s.len(), 15);
    assert_eq!(b.len(), 10);
    let london = s.iter().find(|(n, _)| n == "Europe (London)").unwrap();
    assert_eq!(london.1.hosts, vec!["gamelift.eu-west-2.amazonaws.com".to_string(), "gamelift-ping.eu-west-2.api.aws".to_string()]);
    assert!(!london.1.stable);
    assert!(s.iter().all(|(_, i)| i.hosts.len() == 2));
    assert!(b.iter().all(|(_, i)| i.stable));
}

#[test]
fn group_names() {
    assert_eq!(get_group_name("Europe (London)"), "Europe");
    assert_eq!(get_group_name("US East (Ohio)"), "Americas");
    assert_eq!(get_group_name("Canada (Central)"), "Americas");
    assert_eq!(get_group_name("South America (SÃ£o Paulo)"), "Americas");
    assert_eq!(get_group_name("Asia Pacific (Sydney)"), "Oceania");
    assert_eq!(get_group_name("China (Beijing)"), "China");
    assert_eq!(get_group_name("Asia Pacific (Tokyo)"), "Asia");
    assert_eq!(region_group("Middle East (Bahrain)"), RegionGroup::Asia);
}

#[test]
fn every_catalog_region_has_one_group() {
    for (name, _) in get_selectable_regions().iter().chain(get_blocked_regions().iter()) {
        let g = get_group_name(name);
        assert!(["Europe", "Americas", "Asia", "Oceania", "China"].contains(&g));
    }
}

#[test]
fn game_traffic_endpoints() {
    assert_eq!(game_traffic_endpoint(1, 2, 7777, 50000), Some((1, 7777)));
    assert_eq!(game_traffic_endpoint(1, 2, 50000, 7820), Some((2, 7820)));
    assert_eq!(game_traffic_endpoint(1, 2, 7800, 7801), Some((1, 7800)));
    assert_eq!(game_traffic_endpoint(1, 2, 7776, 7821), None);
}

#[test]
fn latency_colors() {
    assert_eq!(get_color_for_latency(-1), "gray");
    assert_eq!(get_color_for_latency(0), "green");
    assert_eq!(get_color_for_latency(79), "green");
    assert_eq!(get_color_for_latency(80), "orange");
    assert_eq!(get_color_for_latency(130), "crimson");
    assert_eq!(get_color_for_latency(250), "purple");
}
