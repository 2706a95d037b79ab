//! The region catalog: the game-backend regions with their endpoints and
//! stability, the regions that are always blocked, and the grouping used to
//! find a stable stand-in for an unstable region.

use vstd::prelude::*;
use crate::text::{chars_of, contains, contains_exec, occurs_at, occurs_at_exec, string_views};

verus! {

/// A region's endpoints (the first serves the game, the second, where
/// present, answers latency probes) and whether it is stable.
#[derive(Debug)]
pub struct RegionInfo {
    pub hosts: Vec<String>,
    pub stable: bool,
}

/// How the hosts file redirects the game.
#[derive(Clone, Copy, Debug, PartialEq, Eq, Structural)]
pub enum ApplyMode {
    /// Block every region but the selected ones.
    Gatekeep,
    /// Send every endpoint to the addresses of one selected region.
    UniversalRedirect,
}

/// Which endpoints Gatekeep blocks.
#[derive(Clone, Copy, Debug, PartialEq, Eq, Structural)]
pub enum BlockMode {
    Both,
    OnlyPing,
    OnlyService,
}

/// The geographic group of a region.
#[derive(Clone, Copy, Debug, PartialEq, Eq, Structural)]
pub enum RegionGroup {
    Europe,
    Americas,
    Asia,
    Oceania,
    China,
}

/// A region as plain values: name, endpoints, stability.
pub type RegionView = (Seq<char>, Seq<Seq<char>>, bool);

/// The plain values of a catalog entry.
pub open spec fn entry_view(e: (String, RegionInfo)) -> RegionView {
    (e.0@, string_views(e.1.hosts@), e.1.stable)
}

/// The plain values of a catalog.
pub open spec fn catalog_view(c: Seq<(String, RegionInfo)>) -> Seq<RegionView> {
    c.map_values(|e: (String, RegionInfo)| entry_view(e))
}

/// `p` stands at the start of `s`.
pub open spec fn starts_with(s: Seq<char>, p: Seq<char>) -> bool {
    occurs_at(s, p, 0)
}

/// The group of the region with the given display name.
pub open spec fn group_of(name: Seq<char>) -> RegionGroup {
    if starts_with(name, "Europe"@) {
        RegionGroup::Europe
    } else if starts_with(name, "US"@) || starts_with(name, "Canada"@) || starts_with(
        name,
        "South America"@,
    ) {
        RegionGroup::Americas
    } else if contains(name, "Sydney"@) {
        RegionGroup::Oceania
    } else if contains(name, "China"@) {
        RegionGroup::China
    } else {
        RegionGroup::Asia
    }
}

/// The name of a group.
pub open spec fn group_label(g: RegionGroup) -> Seq<char> {
    match g {
        RegionGroup::Europe => "Europe"@,
        RegionGroup::Americas => "Americas"@,
        RegionGroup::Asia => "Asia"@,
        RegionGroup::Oceania => "Oceania"@,
        RegionGroup::China => "China"@,
    }
}

fn has_prefix(s: &Vec<char>, p: &str) -> (r: bool)
    ensures
        r == starts_with(s@, p@),
{
    occurs_at_exec(s, &chars_of(p), 0)
}

fn has_infix(s: &Vec<char>, p: &str) -> (r: bool)
    ensures
        r == contains(s@, p@),
{
    contains_exec(s, &chars_of(p))
}

/// The group of the region with the given display name.
pub fn region_group(region: &str) -> (r: RegionGroup)
    ensures
        r == group_of(region@),
{
    let s = chars_of(region);
    if has_prefix(&s, "Europe") {
        RegionGroup::Europe
    } else if has_prefix(&s, "US") || has_prefix(&s, "Canada") || has_prefix(&s, "South America") {
        RegionGroup::Americas
    } else if has_infix(&s, "Sydney") {
        RegionGroup::Oceania
    } else if has_infix(&s, "China") {
        RegionGroup::China
    } else {
        RegionGroup::Asia
    }
}

/// The name of the group of the region with the given display name.
pub fn get_group_name(region: &str) -> (r: &'static str)
    ensures
        r@ == group_label(group_of(region@)),
{
    match region_group(region) {
        RegionGroup::Europe => "Europe",
        RegionGroup::Americas => "Americas",
        RegionGroup::Asia => "Asia",
        RegionGroup::Oceania => "Oceania",
        RegionGroup::China => "China",
    }
}

/// A catalog entry with a service and a probe endpoint.
fn entry(name: &str, service: &str, ping: &str, stable: bool) -> (r: (String, RegionInfo))
    ensures
        entry_view(r) == (name@, seq![service@, ping@], stable),
{
    let mut hosts: Vec<String> = Vec::new();
    hosts.push(service.to_owned());
    hosts.push(ping.to_owned());
    let r = (name.to_owned(), RegionInfo { hosts, stable });
    assert(string_views(r.1.hosts@) =~= seq![service@, ping@]);
    r
}

/// The regions that can be selected, in catalog order.
pub open spec fn selectable_catalog() -> Seq<RegionView> {
    seq![
        ("Europe (London)"@, seq!["gamelift.eu-west-2.amazonaws.com"@, "gamelift-ping.eu-west-2.api.aws"@], false),
        ("Europe (Ireland)"@, seq!["gamelift.eu-west-1.amazonaws.com"@, "gamelift-ping.eu-west-1.api.aws"@], true),
        ("Europe (Frankfurt am Main)"@, seq!["gamelift.eu-central-1.amazonaws.com"@, "gamelift-ping.eu-central-1.api.aws"@], true),
        ("US East (N. Virginia)"@, seq!["gamelift.us-east-1.amazonaws.com"@, "gamelift-ping.us-east-1.api.aws"@], true),
        ("US East (Ohio)"@, seq!["gamelift.us-east-2.amazonaws.com"@, "gamelift-ping.us-east-2.api.aws"@], false),
        ("US West (N. California)"@, seq!["gamelift.us-west-1.amazonaws.com"@, "gamelift-ping.us-west-1.api.aws"@], true),
        ("US West (Oregon)"@, seq!["gamelift.us-west-2.amazonaws.com"@, "gamelift-ping.us-west-2.api.aws"@], true),
        ("Canada (Central)"@, seq!["gamelift.ca-central-1.amazonaws.com"@, "gamelift-ping.ca-central-1.api.aws"@], false),
        ("South America (SÃ£o Paulo)"@, seq!["gamelift.sa-east-1.amazonaws.com"@, "gamelift-ping.sa-east-1.api.aws"@], true),
        ("Asia Pacific (Tokyo)"@, seq!["gamelift.ap-northeast-1.amazonaws.com"@, "gamelift-ping.ap-northeast-1.api.aws"@], true),
        ("Asia Pacific (Seoul)"@, seq!["gamelift.ap-northeast-2.amazonaws.com"@, "gamelift-ping.ap-northeast-2.api.aws"@], true),
        ("Asia Pacific (Mumbai)"@, seq!["gamelift.ap-south-1.amazonaws.com"@, "gamelift-ping.ap-south-1.api.aws"@], true),
        ("Asia Pacific (Singapore)"@, seq!["gamelift.ap-southeast-1.amazonaws.com"@, "gamelift-ping.ap-southeast-1.api.aws"@], true),
        ("Asia Pacific (Hong Kong)"@, seq!["ec2.ap-east-1.amazonaws.com"@, "gamelift-ping.ap-east-1.api.aws"@], true),
        ("Asia Pacific (Sydney)"@, seq!["gamelift.ap-southeast-2.amazonaws.com"@, "gamelift-ping.ap-southeast-2.api.aws"@], true),
    ]
}

/// The regions that are blocked whatever the selection.
pub open spec fn blocked_catalog() -> Seq<RegionView> {
    seq![
        ("Africa (Cape Town)"@, seq!["gamelift.af-south-1.amazonaws.com"@, "gamelift-ping.af-south-1.api.aws"@], true),
        ("Asia Pacific (Osaka)"@, seq!["gamelift.ap-northeast-3.amazonaws.com"@, "gamelift-ping.ap-northeast-3.api.aws"@], true),
        ("Europe (Stockholm)"@, seq!["gamelift.eu-north-1.amazonaws.com"@, "gamelift-ping.eu-north-1.api.aws"@], true),
        ("Europe (Paris)"@, seq!["gamelift.eu-west-3.amazonaws.com"@, "gamelift-ping.eu-west-3.api.aws"@], true),
        ("Europe (Milan)"@, seq!["gamelift.eu-south-1.amazonaws.com"@, "gamelift-ping.eu-south-1.api.aws"@], true),
        ("Middle East (Bahrain)"@, seq!["gamelift.me-south-1.amazonaws.com"@, "gamelift-ping.me-south-1.api.aws"@], true),
        ("Asia Pacific (Malaysia)"@, seq!["gamelift.ap-southeast-5.amazonaws.com"@, "gamelift-ping.ap-southeast-5.api.aws"@], true),
        ("Asia Pacific (Thailand)"@, seq!["gamelift.ap-southeast-7.amazonaws.com"@, "gamelift-ping.ap-southeast-7.api.aws"@], true),
        ("China (Beijing)"@, seq!["gamelift.cn-north-1.amazonaws.com.cn"@, "gamelift-ping.cn-north-1.api.aws"@], true),
        ("China (Ningxia)"@, seq!["gamelift.cn-northwest-1.amazonaws.com.cn"@, "gamelift-ping.cn-northwest-1.api.aws"@], true),
    ]
}

/// The regions that can be selected.
pub fn get_selectable_regions() -> (r: Vec<(String, RegionInfo)>)
    ensures
        catalog_view(r@) == selectable_catalog(),
{
    let mut r: Vec<(String, RegionInfo)> = Vec::new();
    r.push(entry("Europe (London)", "gamelift.eu-west-2.amazonaws.com", "gamelift-ping.eu-west-2.api.aws", false));
    r.push(entry("Europe (Ireland)", "gamelift.eu-west-1.amazonaws.com", "gamelift-ping.eu-west-1.api.aws", true));
    r.push(entry("Europe (Frankfurt am Main)", "gamelift.eu-central-1.amazonaws.com", "gamelift-ping.eu-central-1.api.aws", true));
    r.push(entry("US East (N. Virginia)", "gamelift.us-east-1.amazonaws.com", "gamelift-ping.us-east-1.api.aws", true));
    r.push(entry("US East (Ohio)", "gamelift.us-east-2.amazonaws.com", "gamelift-ping.us-east-2.api.aws", false));
    r.push(entry("US West (N. California)", "gamelift.us-west-1.amazonaws.com", "gamelift-ping.us-west-1.api.aws", true));
    r.push(entry("US West (Oregon)", "gamelift.us-west-2.amazonaws.com", "gamelift-ping.us-west-2.api.aws", true));
    r.push(entry("Canada (Central)", "gamelift.ca-central-1.amazonaws.com", "gamelift-ping.ca-central-1.api.aws", false));
    r.push(entry("South America (SÃ£o Paulo)", "gamelift.sa-east-1.amazonaws.com", "gamelift-ping.sa-east-1.api.aws", true));
    r.push(entry("Asia Pacific (Tokyo)", "gamelift.ap-northeast-1.amazonaws.com", "gamelift-ping.ap-northeast-1.api.aws", true));
    r.push(entry("Asia Pacific (Seoul)", "gamelift.ap-northeast-2.amazonaws.com", "gamelift-ping.ap-northeast-2.api.aws", true));
    r.push(entry("Asia Pacific (Mumbai)", "gamelift.ap-south-1.amazonaws.com", "gamelift-ping.ap-south-1.api.aws", true));
    r.push(entry("Asia Pacific (Singapore)", "gamelift.ap-southeast-1.amazonaws.com", "gamelift-ping.ap-southeast-1.api.aws", true));
    r.push(entry("Asia Pacific (Hong Kong)", "ec2.ap-east-1.amazonaws.com", "gamelift-ping.ap-east-1.api.aws", true));
    r.push(entry("Asia Pacific (Sydney)", "gamelift.ap-southeast-2.amazonaws.com", "gamelift-ping.ap-southeast-2.api.aws", true));
    assert(catalog_view(r@) =~= selectable_catalog());
    r
}

/// The regions that are always blocked: the game does not use them.
pub fn get_blocked_regions() -> (r: Vec<(String, RegionInfo)>)
    ensures
        catalog_view(r@) == blocked_catalog(),
{
    let mut r: Vec<(String, RegionInfo)> = Vec::new();
    r.push(entry("Africa (Cape Town)", "gamelift.af-south-1.amazonaws.com", "gamelift-ping.af-south-1.api.aws", true));
    r.push(entry("Asia Pacific (Osaka)", "gamelift.ap-northeast-3.amazonaws.com", "gamelift-ping.ap-northeast-3.api.aws", true));
    r.push(entry("Europe (Stockholm)", "gamelift.eu-north-1.amazonaws.com", "gamelift-ping.eu-north-1.api.aws", true));
    r.push(entry("Europe (Paris)", "gamelift.eu-west-3.amazonaws.com", "gamelift-ping.eu-west-3.api.aws", true));
    r.push(entry("Europe (Milan)", "gamelift.eu-south-1.amazonaws.com", "gamelift-ping.eu-south-1.api.aws", true));
    r.push(entry("Middle East (Bahrain)", "gamelift.me-south-1.amazonaws.com", "gamelift-ping.me-south-1.api.aws", true));
    r.push(entry("Asia Pacific (Malaysia)", "gamelift.ap-southeast-5.amazonaws.com", "gamelift-ping.ap-southeast-5.api.aws", true));
    r.push(entry("Asia Pacific (Thailand)", "gamelift.ap-southeast-7.amazonaws.com", "gamelift-ping.ap-southeast-7.api.aws", true));
    r.push(entry("China (Beijing)", "gamelift.cn-north-1.amazonaws.com.cn", "gamelift-ping.cn-north-1.api.aws", true));
    r.push(entry("China (Ningxia)", "gamelift.cn-northwest-1.amazonaws.com.cn", "gamelift-ping.cn-northwest-1.api.aws", true));
    assert(catalog_view(r@) =~= blocked_catalog());
    r
}

} // verus!
