//! The hosts-file manager: from the current content of the hosts file and the
//! operator's choices, the content to write back.

use vstd::prelude::*;
use crate::conflicts::{
    blocked_names, cleared, conflicts_in, find_conflicts, managed_hostnames, managed_names,
    null_routed_hostnames, clear_lines,
};
use crate::policy::{
    allow_set, allowed_column, any_stable, blocked_column, gate_column, gate_regions,
    gatekeep_allow_set, host_line, in_scope, lemma_gate_regions_line, lemma_lookup,
    lemma_null_regions_line, lemma_redirect_regions_line, lemma_stable_fallback, lookup,
    lookup_region, null_regions, push_gate_regions, push_null_regions, push_redirect_regions,
    redirect_column, redirect_regions, stable_in_group,
};
use crate::region::{catalog_view, entry_view, group_of, BlockMode, RegionInfo, RegionView};
use crate::section::{replace_section, section_replaced};
use crate::text::{contains, lemma_contains_sides, push_str, string_of, string_views};

verus! {

/// Why an apply was refused; the hosts file is left untouched.
#[derive(Clone, Copy, Debug, PartialEq, Eq, Structural)]
pub enum HostsError {
    /// Gatekeep was asked to allow no region.
    NothingSelected,
    /// Universal Redirect needs exactly one selected region.
    NotExactlyOne,
    /// The selected region is not in the catalog.
    UnknownRegion,
    /// The selected region has no endpoint.
    NoEndpoint,
    /// An endpoint of the selected region could not be resolved.
    Unresolved,
}

impl HostsError {
    /// A sentence for the operator.
    pub fn message(&self) -> &'static str {
        match self {
            HostsError::NothingSelected => "Please select at least one server to allow.",
            HostsError::NotExactlyOne => "Please select only one server when using Universal Redirect mode.",
            HostsError::UnknownRegion => "Selected region not found",
            HostsError::NoEndpoint => "Selected region has no endpoint",
            HostsError::Unresolved => "Failed to resolve hostname",
        }
    }
}

/// The hosts file that a fresh system ships with.
pub const DEFAULT_HOSTS: &'static str = "# Static table lookup for hostnames.\n# See hosts(5) for details.\n127.0.0.1        localhost\n::1              localhost\n";

/// The comment lines that open Gatekeep's section.
pub open spec fn gate_header(url: Seq<char>) -> Seq<char> {
    "# Edited by Make Your Choice (DbD Server Selector)\n"@
        + "# Unselected servers are blocked (Gatekeep Mode); selected servers are commented out.\n"@
        + "# Need help? Discord: "@ + url + "\n\n"@
}

/// The comment lines that open Universal Redirect's section.
pub open spec fn redirect_header(url: Seq<char>) -> Seq<char> {
    "# Edited by Make Your Choice (DbD Server Selector)\n"@
        + "# Universal Redirect mode: redirect all GameLift endpoints to selected region\n"@
        + "# Need help? Discord: "@ + url + "\n\n"@
}

/// Gatekeep's section content: the header; for each catalog region, its
/// in-scope endpoints commented out if allowed and null-routed if not; then
/// every endpoint of the always-blocked regions null-routed.
pub open spec fn gatekeep_content(
    url: Seq<char>,
    cat: Seq<RegionView>,
    blocked: Seq<RegionView>,
    allow: Seq<Seq<char>>,
    mode: BlockMode,
) -> Seq<char> {
    gate_header(url) + gate_regions(cat, allow, mode, cat.len() as int) + null_regions(
        blocked_column(),
        blocked,
        blocked.len() as int,
    )
}

/// Universal Redirect's section content: the header; every catalog endpoint
/// sent to the probe address if it names "ping", to the service address if
/// not; then every endpoint of the always-blocked regions null-routed.
pub open spec fn redirect_content(
    url: Seq<char>,
    cat: Seq<RegionView>,
    blocked: Seq<RegionView>,
    service_ip: Seq<char>,
    ping_ip: Seq<char>,
) -> Seq<char> {
    redirect_header(url) + redirect_regions(cat, service_ip, ping_ip, cat.len() as int)
        + null_regions("0.0.0.0 "@, blocked, blocked.len() as int)
}

/// The endpoints to resolve for Universal Redirect: the selected region's
/// service endpoint and its probe endpoint (the service one where it has no
/// second).
pub fn redirect_endpoints(regions: &Vec<(String, RegionInfo)>, selected: &Vec<String>) -> (r:
    Result<(String, String), HostsError>)
    ensures
        selected@.len() != 1 ==> r == Err::<(String, String), HostsError>(HostsError::NotExactlyOne),
        selected@.len() == 1 ==> match lookup(catalog_view(regions@), selected@[0]@) {
            None => r == Err::<(String, String), HostsError>(HostsError::UnknownRegion),
            Some(i) => {
                let hosts = catalog_view(regions@)[i].1;
                if hosts.len() == 0 {
                    r == Err::<(String, String), HostsError>(HostsError::NoEndpoint)
                } else {
                    r matches Ok((s, p)) && s@ == hosts[0] && p@ == (if hosts.len() > 1 {
                        hosts[1]
                    } else {
                        hosts[0]
                    })
                }
            },
        },
{
    if selected.len() != 1 {
        return Err(HostsError::NotExactlyOne);
    }
    let found = lookup_region(regions, &selected[0]);
    proof {
        lemma_lookup(catalog_view(regions@), selected@[0]@, 0);
    }
    match found {
        None => Err(HostsError::UnknownRegion),
        Some(i) => {
            let hosts = &regions[i].1.hosts;
            if hosts.len() == 0 {
                Err(HostsError::NoEndpoint)
            } else if hosts.len() > 1 {
                Ok((hosts[0].clone(), hosts[1].clone()))
            } else {
                Ok((hosts[0].clone(), hosts[0].clone()))
            }
        },
    }
}

/// A copy of a catalog entry.
fn copy_entry(e: &(String, RegionInfo)) -> (r: (String, RegionInfo))
    ensures
        entry_view(r) == entry_view(*e),
{
    let mut hosts: Vec<String> = Vec::new();
    let mut j: usize = 0;
    while j < e.1.hosts.len()
        invariant
            0 <= j <= e.1.hosts@.len(),
            string_views(hosts@) == string_views(e.1.hosts@).take(j as int),
        decreases e.1.hosts@.len() - j,
    {
        let ghost prev = string_views(hosts@);
        let h = e.1.hosts[j].clone();
        assert(h@ == string_views(e.1.hosts@)[j as int]);
        hosts.push(h);
        assert(string_views(hosts@) =~= prev.push(h@));
        let ghost all = string_views(e.1.hosts@);
        assert(all.take(j + 1) =~= all.take(j as int).push(h@));
        j = j + 1;
    }
    assert(string_views(e.1.hosts@).take(j as int) =~= string_views(e.1.hosts@));
    (e.0.clone(), RegionInfo { hosts, stable: e.1.stable })
}

/// `a` with the entries of `b` merged in, in order: an entry whose name is
/// already present replaces the first entry of that name, another is appended.
pub open spec fn merged(a: Seq<RegionView>, b: Seq<RegionView>) -> Seq<RegionView>
    decreases b.len(),
{
    if b.len() == 0 {
        a
    } else {
        let m = merged(a, b.drop_last());
        match lookup(m, b.last().0) {
            Some(i) => m.update(i, b.last()),
            None => m.push(b.last()),
        }
    }
}

/// The selectable and the always-blocked regions in one catalog.
pub fn all_regions(selectable: &Vec<(String, RegionInfo)>, blocked: &Vec<(String, RegionInfo)>) -> (r:
    Vec<(String, RegionInfo)>)
    ensures
        catalog_view(r@) == merged(catalog_view(selectable@), catalog_view(blocked@)),
{
    let ghost a = catalog_view(selectable@);
    let ghost b = catalog_view(blocked@);
    let mut out: Vec<(String, RegionInfo)> = Vec::new();
    let mut i: usize = 0;
    while i < selectable.len()
        invariant
            a == catalog_view(selectable@),
            0 <= i <= selectable@.len(),
            catalog_view(out@) == a.take(i as int),
        decreases selectable@.len() - i,
    {
        let ghost prev = catalog_view(out@);
        let e = copy_entry(&selectable[i]);
        out.push(e);
        assert(catalog_view(out@) =~= prev.push(a[i as int]));
        assert(a.take(i + 1) =~= a.take(i as int).push(a[i as int]));
        i = i + 1;
    }
    assert(a.take(i as int) =~= a);
    assert(merged(a, b.take(0)) == a);
    let mut k: usize = 0;
    while k < blocked.len()
        invariant
            a == catalog_view(selectable@),
            b == catalog_view(blocked@),
            0 <= k <= blocked@.len(),
            catalog_view(out@) == merged(a, b.take(k as int)),
        decreases blocked@.len() - k,
    {
        assert(b.take(k + 1).drop_last() =~= b.take(k as int));
        let e = copy_entry(&blocked[k]);
        let found = lookup_region(&out, &blocked[k].0);
        proof {
            lemma_lookup(catalog_view(out@), b[k as int].0, 0);
        }
        let ghost m = catalog_view(out@);
        match found {
            Some(j) => {
                out.set(j, e);
                assert(catalog_view(out@) =~= m.update(j as int, b[k as int]));
            },
            None => {
                out.push(e);
                assert(catalog_view(out@) =~= m.push(b[k as int]));
            },
        }
        k = k + 1;
    }
    assert(b.take(k as int) =~= b);
    out
}

/// Writes and reads the managed section of the hosts file on behalf of the
/// operator; `discord_url` is quoted in the section's header.
pub struct HostsManager {
    discord_url: String,
}

impl View for HostsManager {
    type V = Seq<char>;

    closed spec fn view(&self) -> Seq<char> {
        self.discord_url@
    }
}

impl HostsManager {
    pub fn new(discord_url: String) -> (r: Self)
        ensures
            r@ == discord_url@,
    {
        HostsManager { discord_url }
    }

    /// The hosts file after Gatekeep: the selected regions (with stable
    /// stand-ins where merging applies) commented out, all other endpoints in
    /// scope null-routed. Refused when nothing is selected.
    pub fn apply_gatekeep(
        &self,
        current: &str,
        regions: &Vec<(String, RegionInfo)>,
        blocked_regions: &Vec<(String, RegionInfo)>,
        selected: &Vec<String>,
        block_mode: BlockMode,
        merge_unstable: bool,
    ) -> (r: Result<String, HostsError>)
        ensures
            selected@.len() == 0 ==> r == Err::<String, HostsError>(HostsError::NothingSelected),
            selected@.len() > 0 ==> (r matches Ok(t) && t@ == section_replaced(
                current@,
                gatekeep_content(
                    self@,
                    catalog_view(regions@),
                    catalog_view(blocked_regions@),
                    allow_set(catalog_view(regions@), string_views(selected@), merge_unstable),
                    block_mode,
                ),
            )),
    {
        if selected.len() == 0 {
            return Err(HostsError::NothingSelected);
        }
        let allowed = gatekeep_allow_set(regions, selected, merge_unstable);
        let mut content: Vec<char> = Vec::new();
        push_str(&mut content, "# Edited by Make Your Choice (DbD Server Selector)\n");
        push_str(
            &mut content,
            "# Unselected servers are blocked (Gatekeep Mode); selected servers are commented out.\n",
        );
        push_str(&mut content, "# Need help? Discord: ");
        push_str(&mut content, self.discord_url.as_str());
        push_str(&mut content, "\n\n");
        assert(content@ =~= gate_header(self@));
        push_gate_regions(&mut content, regions, &allowed, block_mode);
        push_null_regions(&mut content, "0.0.0.0   ", blocked_regions);
        let inner = string_of(&content);
        Ok(replace_section(current, inner.as_str()))
    }

    /// The hosts file after Universal Redirect to the selected region, given
    /// the addresses that its service and probe endpoints resolved to (`None`
    /// where resolution failed).
    pub fn apply_universal_redirect(
        &self,
        current: &str,
        regions: &Vec<(String, RegionInfo)>,
        blocked_regions: &Vec<(String, RegionInfo)>,
        selected_region: &str,
        service_ip: Option<String>,
        ping_ip: Option<String>,
    ) -> (r: Result<String, HostsError>)
        ensures
            lookup(catalog_view(regions@), selected_region@) is None ==> r == Err::<
                String,
                HostsError,
            >(HostsError::UnknownRegion),
            lookup(catalog_view(regions@), selected_region@) is Some && (service_ip is None
                || ping_ip is None) ==> r == Err::<String, HostsError>(HostsError::Unresolved),
            lookup(catalog_view(regions@), selected_region@) is Some && service_ip is Some
                && ping_ip is Some ==> (r matches Ok(t) && t@ == section_replaced(
                current@,
                redirect_content(
                    self@,
                    catalog_view(regions@),
                    catalog_view(blocked_regions@),
                    service_ip->0@,
                    ping_ip->0@,
                ),
            )),
    {
        let name = selected_region.to_owned();
        if lookup_region(regions, &name).is_none() {
            return Err(HostsError::UnknownRegion);
        }
        let (service, ping) = match (service_ip, ping_ip) {
            (Some(s), Some(p)) => (s, p),
            _ => {
                return Err(HostsError::Unresolved);
            },
        };
        let mut content: Vec<char> = Vec::new();
        push_str(&mut content, "# Edited by Make Your Choice (DbD Server Selector)\n");
        push_str(
            &mut content,
            "# Universal Redirect mode: redirect all GameLift endpoints to selected region\n",
        );
        push_str(&mut content, "# Need help? Discord: ");
        push_str(&mut content, self.discord_url.as_str());
        push_str(&mut content, "\n\n");
        assert(content@ =~= redirect_header(self@));
        push_redirect_regions(&mut content, regions, service.as_str(), ping.as_str());
        push_null_regions(&mut content, "0.0.0.0 ", blocked_regions);
        let inner = string_of(&content);
        Ok(replace_section(current, inner.as_str()))
    }

    /// The hosts file without its managed section.
    pub fn revert(&self, current: &str) -> (r: String)
        ensures
            r@ == section_replaced(current@, seq![]),
    {
        proof {
            reveal_strlit("");
        }
        replace_section(current, "")
    }

    /// The hosts file that a fresh system ships with.
    pub fn restore_default(&self) -> (r: String)
        ensures
            r@ == DEFAULT_HOSTS@,
    {
        DEFAULT_HOSTS.to_owned()
    }

    /// Every endpoint of the catalog, lowercased, each once.
    pub fn get_all_managed_hostnames(&self, regions: &Vec<(String, RegionInfo)>) -> (r: Vec<
        String,
    >)
        ensures
            string_views(r@) == managed_names(catalog_view(regions@)),
    {
        managed_hostnames(regions)
    }

    /// The unowned lines of the hosts file that name an endpoint of the catalog.
    pub fn detect_conflicting_entries(
        &self,
        current: &str,
        regions: &Vec<(String, RegionInfo)>,
    ) -> (r: Vec<String>)
        ensures
            string_views(r@) == conflicts_in(current@, managed_names(catalog_view(regions@))),
    {
        let managed = managed_hostnames(regions);
        find_conflicts(current, &managed)
    }

    /// The hosts file without the given conflicting lines.
    pub fn clear_conflicting_entries(&self, current: &str, conflicts: &Vec<String>) -> (r:
        String)
        ensures
            r@ == cleared(current@, string_views(conflicts@)),
    {
        clear_lines(current, conflicts)
    }

    /// The endpoints that the managed section null-routes, lowercased, each once.
    pub fn get_blocked_hostnames(&self, current: &str) -> (r: Vec<String>)
        ensures
            string_views(r@) == blocked_names(current@),
    {
        null_routed_hostnames(current)
    }
}

/// Gatekeep's section holds, for every in-scope endpoint of the catalog, a
/// line that comments it out when its region is allowed and null-routes it
/// when not, and a null-route line for every endpoint of the always-blocked
/// regions.
pub proof fn lemma_gatekeep_lines(
    url: Seq<char>,
    cat: Seq<RegionView>,
    blocked: Seq<RegionView>,
    allow: Seq<Seq<char>>,
    mode: BlockMode,
)
    ensures
        forall|i: int, j: int|
            0 <= i < cat.len() && 0 <= j < cat[i].1.len() && in_scope(mode, cat[i].1[j])
                ==> contains(
                gatekeep_content(url, cat, blocked, allow, mode),
                host_line(gate_column(allow.contains(cat[i].0)), #[trigger] cat[i].1[j]),
            ),
        forall|i: int, j: int|
            0 <= i < blocked.len() && 0 <= j < blocked[i].1.len() ==> contains(
                gatekeep_content(url, cat, blocked, allow, mode),
                host_line(blocked_column(), #[trigger] blocked[i].1[j]),
            ),
{
    let head = gate_header(url);
    let body = gate_regions(cat, allow, mode, cat.len() as int);
    let tail = null_regions(blocked_column(), blocked, blocked.len() as int);
    assert forall|i: int, j: int|
        0 <= i < cat.len() && 0 <= j < cat[i].1.len() && in_scope(mode, cat[i].1[j]) implies contains(
        gatekeep_content(url, cat, blocked, allow, mode),
        host_line(gate_column(allow.contains(cat[i].0)), #[trigger] cat[i].1[j]),
    ) by {
        let x = host_line(gate_column(allow.contains(cat[i].0)), cat[i].1[j]);
        lemma_gate_regions_line(cat, allow, mode, cat.len() as int, i, j);
        lemma_contains_sides(head, body, x);
        lemma_contains_sides(head + body, tail, x);
    }
    assert forall|i: int, j: int| 0 <= i < blocked.len() && 0 <= j < blocked[i].1.len() implies contains(
        gatekeep_content(url, cat, blocked, allow, mode),
        host_line(blocked_column(), #[trigger] blocked[i].1[j]),
    ) by {
        let x = host_line(blocked_column(), blocked[i].1[j]);
        lemma_null_regions_line(blocked_column(), blocked, blocked.len() as int, i, j);
        lemma_contains_sides(head + body, tail, x);
    }
}

/// With merging asked for and no stable region selected, Gatekeep comments out
/// the in-scope endpoints of a stable region of each selected catalog
/// region's group, wherever the catalog has a stable region of that group.
pub proof fn lemma_stand_in_lines(
    url: Seq<char>,
    cat: Seq<RegionView>,
    blocked: Seq<RegionView>,
    sel: Seq<Seq<char>>,
    mode: BlockMode,
)
    requires
        !any_stable(cat, sel),
    ensures
        forall|k: int|
            0 <= k < sel.len() && lookup(cat, sel[k]) is Some && (exists|i: int|
                0 <= i < cat.len() && stable_in_group(cat, group_of(sel[k]), i)) ==> exists|i: int|
                0 <= i < cat.len() && stable_in_group(cat, group_of(#[trigger] sel[k]), i) && forall|
                    j: int,
                |
                    0 <= j < cat[i].1.len() && in_scope(mode, cat[i].1[j]) ==> contains(
                        gatekeep_content(url, cat, blocked, allow_set(cat, sel, true), mode),
                        host_line(allowed_column(), #[trigger] cat[i].1[j]),
                    ),
{
    let allow = allow_set(cat, sel, true);
    lemma_stable_fallback(cat, sel);
    lemma_gatekeep_lines(url, cat, blocked, allow, mode);
    assert forall|k: int|
        0 <= k < sel.len() && lookup(cat, sel[k]) is Some && (exists|i: int|
            0 <= i < cat.len() && stable_in_group(cat, group_of(sel[k]), i)) implies exists|i: int|
        0 <= i < cat.len() && stable_in_group(cat, group_of(#[trigger] sel[k]), i) && forall|j: int|
            0 <= j < cat[i].1.len() && in_scope(mode, cat[i].1[j]) ==> contains(
                gatekeep_content(url, cat, blocked, allow, mode),
                host_line(allowed_column(), #[trigger] cat[i].1[j]),
            ) by {
        let (jj, i) = choose|jj: int, i: int|
            0 <= jj < allow.len() && 0 <= i < cat.len() && allow[jj] == cat[i].0 && stable_in_group(
                cat,
                group_of(sel[k]),
                i,
            );
        assert(allow.contains(cat[i].0));
        assert(gate_column(true) == allowed_column());
    }
}

/// Universal Redirect's section holds, for every endpoint of the catalog, the
/// line that sends it to the probe address when it names "ping" (ignoring
/// case) and to the service address otherwise, and a null-route line for
/// every endpoint of the always-blocked regions.
pub proof fn lemma_redirect_lines(
    url: Seq<char>,
    cat: Seq<RegionView>,
    blocked: Seq<RegionView>,
    service_ip: Seq<char>,
    ping_ip: Seq<char>,
)
    ensures
        forall|i: int, j: int|
            0 <= i < cat.len() && 0 <= j < cat[i].1.len() ==> contains(
                redirect_content(url, cat, blocked, service_ip, ping_ip),
                host_line(redirect_column(cat[i].1[j], service_ip, ping_ip), #[trigger] cat[i].1[j]),
            ),
        forall|i: int, j: int|
            0 <= i < blocked.len() && 0 <= j < blocked[i].1.len() ==> contains(
                redirect_content(url, cat, blocked, service_ip, ping_ip),
                host_line("0.0.0.0 "@, #[trigger] blocked[i].1[j]),
            ),
{
    let head = redirect_header(url);
    let body = redirect_regions(cat, service_ip, ping_ip, cat.len() as int);
    let tail = null_regions("0.0.0.0 "@, blocked, blocked.len() as int);
    assert forall|i: int, j: int| 0 <= i < cat.len() && 0 <= j < cat[i].1.len() implies contains(
        redirect_content(url, cat, blocked, service_ip, ping_ip),
        host_line(redirect_column(cat[i].1[j], service_ip, ping_ip), #[trigger] cat[i].1[j]),
    ) by {
        let x = host_line(redirect_column(cat[i].1[j], service_ip, ping_ip), cat[i].1[j]);
        lemma_redirect_regions_line(cat, service_ip, ping_ip, cat.len() as int, i, j);
        lemma_contains_sides(head, body, x);
        lemma_contains_sides(head + body, tail, x);
    }
    assert forall|i: int, j: int| 0 <= i < blocked.len() && 0 <= j < blocked[i].1.len() implies contains(
        redirect_content(url, cat, blocked, service_ip, ping_ip),
        host_line("0.0.0.0 "@, #[trigger] blocked[i].1[j]),
    ) by {
        let x = host_line("0.0.0.0 "@, blocked[i].1[j]);
        lemma_null_regions_line("0.0.0.0 "@, blocked, blocked.len() as int, i, j);
        lemma_contains_sides(head + body, tail, x);
    }
}

} // verus!
