use make_your_choice::aws_ranges::{parse_ipv4_cidr, AwsIpService, FeedRecord, RefreshGate, RefreshStep};

fn rec(prefix: Option<&str>, region: Option<&str>) -> FeedRecord {
    FeedRecord { ip_prefix: prefix.map(|s| s.to_string()), region: region.map(|s| s.to_string()) }
}

#[test]
fn longest_prefix_wins() {
    let mut s = AwsIpService::new();
    s.replace_ranges(&vec![rec(Some("10.0.0.0/8"), Some("region-a")), rec(Some("10.1.0.0/16"), Some("region-b"))]);
    assert_eq!(s.get_region("10.1.2.3"), Some("region-b".to_string()));
    assert_eq!(s.get_region("10.2.2.3"), Some("region-a".to_string()));
    assert_eq!(s.get_region("11.0.0.1"), None);
}

#[test]
fn first_of_equal_prefixes_wins_and_names_are_pretty() {
    let mut s = AwsIpService::new();
    s.replace_ranges(&vec![
        rec(Some("3.0.0.0/8"), Some("us-east-1")),
        rec(Some("3.0.0.0/8"), Some("eu-west-1")),
        rec(Some("0.0.0.0/0"), None),
    ]);
    assert_eq!(s.get_region("3.4.5.6"), Some("US East (N. Virginia)".to_string()));
    assert_eq!(s.get_region("9.9.9.9"), Some("".to_string()));
}

#[test]
fn invalid_addresses_give_no_region() {
    let mut s = AwsIpService::new();
    s.replace_ranges(&vec![rec(Some("0.0.0.0/0"), Some("x"))]);
    assert_eq!(s.get_region("::1"), None);
    assert_eq!(s.get_region("1.2.3"), None);
    assert_eq!(s.get_region("1.2.3.256"), None);
    assert_eq!(s.get_region("01.2.3.4"), None);
    assert_eq!(s.get_region(""), None);
    assert_eq!(s.get_region("0.0.0.0"), Some("x".to_string()));
}

#[test]
fn malformed_records_are_skipped() {
    let mut s = AwsIpService::new();
    s.replace_ranges(&vec![
        rec(None, Some("a")),
        rec(Some(""), Some("b")),
        rec(Some("1.2.3.4/33"), Some("c")),
        rec(Some("1.2.3.4/8/9"), Some("d")),
        rec(Some("1.2.3/8"), Some("e")),
        rec(Some("2001:db8::/32"), Some("f")),
    ]);
    assert_eq!(s.get_region("1.2.3.4"), None);
}

#[test]
fn cidr_parsing() {
    assert_eq!(parse_ipv4_cidr("10.1.0.0/16"), Some((0x0A01_0000, 0xFFFF_0000, 16)));
    assert_eq!(parse_ipv4_cidr("10.1.2.3/8"), Some((0x0A00_0000, 0xFF00_0000, 8)));
    assert_eq!(parse_ipv4_cidr("1.2.3.4/32"), Some((0x0102_0304, 0xFFFF_FFFF, 32)));
    assert_eq!(parse_ipv4_cidr("1.2.3.4/0"), Some((0, 0, 0)));
    assert_eq!(parse_ipv4_cidr("1.2.3.4/+8"), Some((0x0100_0000, 0xFF00_0000, 8)));
    assert_eq!(parse_ipv4_cidr("1.2.3.4/008"), Some((0x0100_0000, 0xFF00_0000, 8)));
    assert_eq!(parse_ipv4_cidr("1.2.3.4/33"), None);
    assert_eq!(parse_ipv4_cidr("1.2.3.4/"), None);
    assert_eq!(parse_ipv4_cidr("1.2.3.4"), None);
    assert_eq!(parse_ipv4_cidr("1.2.3.4/8/1"), None);
    assert_eq!(parse_ipv4_cidr("1.2.3.04/8"), None);
    assert_eq!(parse_ipv4_cidr("1.2.3.4/-1"), None);
    assert_eq!(parse_ipv4_cidr("1.2.3.4/ 8"), None);
}

#[test]
fn pretty_region_names() {
    assert_eq!(AwsIpService::get_pretty_region_name("eu-central-1"), "Europe (Frankfurt am Main)");
    assert_eq!(AwsIpService::get_pretty_region_name("ap-northeast-3"), "Asia Pacific (Osaka)");
    assert_eq!(AwsIpService::get_pretty_region_name("xx-nowhere-9"), "xx-nowhere-9");
}

#[test]
fn refresh_gate_lets_one_fetch_through() {
    let mut g = RefreshGate::new();
    let (first, t1) = g.begin();
    assert_eq!(first, RefreshStep::Fetch);
    let (second, t2) = g.begin();
    assert_eq!(second, RefreshStep::Wait);
    assert_eq!(g.outcome(t2), None);
    g.finish(true);
    assert_eq!(g.outcome(t2), Some(true));
    assert_eq!(t1, t2);
    let (third, t3) = g.begin();
    assert_eq!(third, RefreshStep::Fetch);
    assert_ne!(t3, t2);
    g.finish(false);
    assert_eq!(g.outcome(t3), Some(false));
}
