//! The two redirect policies: Gatekeep, which leaves the selected regions
//! alone and null-routes the others, and Universal Redirect, which points
//! every endpoint at the addresses of one region. Each yields the content of
//! the managed section.

use vstd::prelude::*;
use crate::region::{
    catalog_view, group_of, region_group, BlockMode, RegionGroup, RegionInfo,
    RegionView,
};
use crate::text::{
    chars_of, contains, contains_exec, holds, lemma_contains_self, lemma_contains_sides, lower_of,
    lowercase, push_str, string_views,
};

verus! {

/// Index of the first region at or after `i` with the given name.
pub open spec fn lookup_from(cat: Seq<RegionView>, name: Seq<char>, i: int) -> Option<int>
    decreases cat.len() - i,
{
    if i < 0 || i >= cat.len() {
        None
    } else if cat[i].0 == name {
        Some(i)
    } else {
        lookup_from(cat, name, i + 1)
    }
}

/// Index of the first region with the given name.
pub open spec fn lookup(cat: Seq<RegionView>, name: Seq<char>) -> Option<int> {
    lookup_from(cat, name, 0)
}

/// The named region is in the catalog and stable.
pub open spec fn is_stable_region(cat: Seq<RegionView>, name: Seq<char>) -> bool {
    lookup(cat, name) matches Some(i) && cat[i].2
}

/// Some selected region is stable.
pub open spec fn any_stable(cat: Seq<RegionView>, sel: Seq<Seq<char>>) -> bool {
    exists|k: int| 0 <= k < sel.len() && is_stable_region(cat, sel[k])
}

/// Region `i` is stable and belongs to group `g`.
pub open spec fn stable_in_group(cat: Seq<RegionView>, g: RegionGroup, i: int) -> bool {
    cat[i].2 && group_of(cat[i].0) == g
}

/// Index of the first stable region of group `g` at or after `i`.
pub open spec fn stable_alt_from(cat: Seq<RegionView>, g: RegionGroup, i: int) -> Option<int>
    decreases cat.len() - i,
{
    if i < 0 || i >= cat.len() {
        None
    } else if stable_in_group(cat, g, i) {
        Some(i)
    } else {
        stable_alt_from(cat, g, i + 1)
    }
}

/// The stand-in added for one selected region: for an unstable region of
/// the catalog, the first stable region of its group, if there is one.
pub open spec fn stand_in(cat: Seq<RegionView>, name: Seq<char>) -> Seq<Seq<char>> {
    match lookup(cat, name) {
        Some(i) => if !cat[i].2 {
            match stable_alt_from(cat, group_of(name), 0) {
                Some(a) => seq![cat[a].0],
                None => seq![],
            }
        } else {
            seq![]
        },
        None => seq![],
    }
}

/// The stand-ins for the first `n` selected regions, in selection order.
pub open spec fn stand_ins(cat: Seq<RegionView>, sel: Seq<Seq<char>>, n: int) -> Seq<Seq<char>>
    decreases n,
{
    if n <= 0 || n > sel.len() {
        seq![]
    } else {
        stand_ins(cat, sel, n - 1) + stand_in(cat, sel[n - 1])
    }
}

/// The regions that Gatekeep leaves reachable: the selection, and, where
/// merging is asked for and no selected region is stable, a stable stand-in
/// for each unstable one.
pub open spec fn allow_set(cat: Seq<RegionView>, sel: Seq<Seq<char>>, merge: bool) -> Seq<
    Seq<char>,
> {
    if merge && !any_stable(cat, sel) {
        sel + stand_ins(cat, sel, sel.len() as int)
    } else {
        sel
    }
}

/// What `lookup_from` finds: the first region with the name.
pub proof fn lemma_lookup(cat: Seq<RegionView>, name: Seq<char>, from: int)
    requires
        0 <= from,
    ensures
        lookup_from(cat, name, from) matches Some(i) ==> from <= i < cat.len() && cat[i].0 == name
            && forall|j: int| from <= j < i ==> cat[j].0 != name,
        lookup_from(cat, name, from) is None ==> forall|j: int|
            from <= j < cat.len() ==> cat[j].0 != name,
    decreases cat.len() - from,
{
    if from < cat.len() && cat[from].0 != name {
        lemma_lookup(cat, name, from + 1);
    }
}

/// What `stable_alt_from` finds: the first stable region of the group.
pub proof fn lemma_stable_alt(cat: Seq<RegionView>, g: RegionGroup, from: int)
    requires
        0 <= from,
    ensures
        stable_alt_from(cat, g, from) matches Some(i) ==> from <= i < cat.len() && stable_in_group(
            cat,
            g,
            i,
        ),
        stable_alt_from(cat, g, from) is None ==> forall|j: int|
            from <= j < cat.len() ==> !stable_in_group(cat, g, j),
    decreases cat.len() - from,
{
    if from < cat.len() && !stable_in_group(cat, g, from) {
        lemma_stable_alt(cat, g, from + 1);
    }
}

/// The first region of the catalog with the given name.
pub fn lookup_region(regions: &Vec<(String, RegionInfo)>, name: &String) -> (r: Option<usize>)
    ensures
        pos_of(r) == lookup(catalog_view(regions@), name@),
{
    let ghost cat = catalog_view(regions@);
    let mut i: usize = 0;
    while i < regions.len()
        invariant
            cat == catalog_view(regions@),
            0 <= i <= regions@.len(),
            lookup(cat, name@) == lookup_from(cat, name@, i as int),
        decreases regions@.len() - i,
    {
        if regions[i].0 == *name {
            return Some(i);
        }
        i = i + 1;
    }
    None
}

/// An optional index as a mathematical integer.
pub open spec fn pos_of(o: Option<usize>) -> Option<int> {
    match o {
        Some(v) => Some(v as int),
        None => None,
    }
}

/// The first stable region of group `g`.
fn stable_alternative(regions: &Vec<(String, RegionInfo)>, g: RegionGroup) -> (r: Option<usize>)
    ensures
        pos_of(r) == stable_alt_from(catalog_view(regions@), g, 0),
{
    let ghost cat = catalog_view(regions@);
    let mut i: usize = 0;
    while i < regions.len()
        invariant
            cat == catalog_view(regions@),
            0 <= i <= regions@.len(),
            stable_alt_from(cat, g, 0) == stable_alt_from(cat, g, i as int),
        decreases regions@.len() - i,
    {
        if regions[i].1.stable && region_group(regions[i].0.as_str()) == g {
            return Some(i);
        }
        i = i + 1;
    }
    None
}

/// The regions that Gatekeep leaves reachable for this selection.
pub fn gatekeep_allow_set(
    regions: &Vec<(String, RegionInfo)>,
    selected: &Vec<String>,
    merge_unstable: bool,
) -> (r: Vec<String>)
    ensures
        string_views(r@) == allow_set(catalog_view(regions@), string_views(selected@), merge_unstable),
{
    let ghost cat = catalog_view(regions@);
    let ghost sel = string_views(selected@);
    let mut allowed: Vec<String> = Vec::new();
    let mut k: usize = 0;
    let mut any_stable_selected = false;
    while k < selected.len()
        invariant
            cat == catalog_view(regions@),
            sel == string_views(selected@),
            0 <= k <= selected@.len(),
            string_views(allowed@) == sel.take(k as int),
            any_stable_selected == exists|j: int| 0 <= j < k && is_stable_region(cat, sel[j]),
        decreases selected@.len() - k,
    {
        let found = lookup_region(regions, &selected[k]);
        proof {
            lemma_lookup(cat, sel[k as int], 0);
        }
        match found {
            Some(i) => {
                if regions[i].1.stable {
                    any_stable_selected = true;
                }
            },
            None => {},
        }
        let ghost prev = string_views(allowed@);
        allowed.push(selected[k].clone());
        assert(string_views(allowed@) =~= prev.push(sel[k as int]));
        assert(sel.take(k + 1) =~= sel.take(k as int).push(sel[k as int]));
        k = k + 1;
    }
    assert(sel.take(k as int) =~= sel);
    if !merge_unstable || any_stable_selected {
        return allowed;
    }
    let mut k: usize = 0;
    while k < selected.len()
        invariant
            cat == catalog_view(regions@),
            sel == string_views(selected@),
            0 <= k <= selected@.len(),
            string_views(allowed@) == sel + stand_ins(cat, sel, k as int),
        decreases selected@.len() - k,
    {
        let ghost prev = string_views(allowed@);
        let found = lookup_region(regions, &selected[k]);
        proof {
            lemma_lookup(cat, sel[k as int], 0);
        }
        match found {
            Some(i) => {
                if !regions[i].1.stable {
                    let g = region_group(selected[k].as_str());
                    let alt = stable_alternative(regions, g);
                    proof {
                        lemma_stable_alt(cat, g, 0);
                    }
                    match alt {
                        Some(a) => {
                            allowed.push(regions[a].0.clone());
                            assert(string_views(allowed@) =~= prev + stand_in(cat, sel[k as int]));
                        },
                        None => {
                            assert(string_views(allowed@) =~= prev + stand_in(cat, sel[k as int]));
                        },
                    }
                } else {
                    assert(string_views(allowed@) =~= prev + stand_in(cat, sel[k as int]));
                }
            },
            None => {
                assert(string_views(allowed@) =~= prev + stand_in(cat, sel[k as int]));
            },
        }
        k = k + 1;
    }
    allowed
}

proof fn lemma_stand_ins_include(cat: Seq<RegionView>, sel: Seq<Seq<char>>, n: int, k: int)
    requires
        0 <= k < n <= sel.len(),
        stand_in(cat, sel[k]).len() == 1,
    ensures
        exists|j: int|
            0 <= j < stand_ins(cat, sel, n).len() && stand_ins(cat, sel, n)[j] == stand_in(
                cat,
                sel[k],
            )[0],
    decreases n,
{
    let prev = stand_ins(cat, sel, n - 1);
    if k == n - 1 {
        assert(stand_ins(cat, sel, n)[prev.len() as int] == stand_in(cat, sel[k])[0]);
    } else {
        lemma_stand_ins_include(cat, sel, n - 1, k);
        let j = choose|j: int| 0 <= j < prev.len() && prev[j] == stand_in(cat, sel[k])[0];
        assert(stand_ins(cat, sel, n)[j] == prev[j]);
    }
}

/// With merging asked for and no stable region selected, each group of a
/// selected catalog region keeps a stable region in the allow set, wherever
/// the catalog has a stable region of that group.
pub proof fn lemma_stable_fallback(cat: Seq<RegionView>, sel: Seq<Seq<char>>)
    requires
        !any_stable(cat, sel),
    ensures
        forall|k: int|
            0 <= k < sel.len() && lookup(cat, sel[k]) is Some && (exists|i: int|
                0 <= i < cat.len() && stable_in_group(cat, group_of(sel[k]), i)) ==> exists|
                j: int,
                i: int,
            |
                0 <= j < allow_set(cat, sel, true).len() && 0 <= i < cat.len() && allow_set(
                    cat,
                    sel,
                    true,
                )[j] == cat[i].0 && stable_in_group(cat, group_of(sel[k]), i),
{
    let allow = allow_set(cat, sel, true);
    assert forall|k: int|
        0 <= k < sel.len() && lookup(cat, sel[k]) is Some && (exists|i: int|
            0 <= i < cat.len() && stable_in_group(cat, group_of(sel[k]), i)) implies exists|
        j: int,
        i: int,
    |
        0 <= j < allow.len() && 0 <= i < cat.len() && allow[j] == cat[i].0 && stable_in_group(
            cat,
            group_of(sel[k]),
            i,
        ) by {
        let g = group_of(sel[k]);
        lemma_lookup(cat, sel[k], 0);
        lemma_stable_alt(cat, g, 0);
        assert(!is_stable_region(cat, sel[k]));
        let a = stable_alt_from(cat, g, 0)->0;
        assert(stand_in(cat, sel[k]) == seq![cat[a].0]);
        lemma_stand_ins_include(cat, sel, sel.len() as int, k);
        let j = choose|j: int|
            0 <= j < stand_ins(cat, sel, sel.len() as int).len() && stand_ins(
                cat,
                sel,
                sel.len() as int,
            )[j] == stand_in(cat, sel[k])[0];
        assert(allow[sel.len() + j] == cat[a].0);
    }
}

/// Gatekeep's scope test: the endpoint answers latency probes.
pub open spec fn is_ping_host(h: Seq<char>) -> bool {
    contains(h, "ping"@)
}

/// Whether Gatekeep writes a line for the endpoint under the block mode.
pub open spec fn in_scope(mode: BlockMode, h: Seq<char>) -> bool {
    match mode {
        BlockMode::Both => true,
        BlockMode::OnlyPing => is_ping_host(h),
        BlockMode::OnlyService => !is_ping_host(h),
    }
}

/// The address column for an allowed (commented-out) endpoint.
pub open spec fn allowed_column() -> Seq<char> {
    "#         "@
}

/// The address column for a null-routed endpoint, padded to Gatekeep's width.
pub open spec fn blocked_column() -> Seq<char> {
    "0.0.0.0   "@
}

/// A hosts line: the address column, then the endpoint.
pub open spec fn host_line(column: Seq<char>, h: Seq<char>) -> Seq<char> {
    column + h + seq!['\n']
}

/// Gatekeep's lines for the first `n` endpoints of a region.
pub open spec fn gate_hosts(hosts: Seq<Seq<char>>, allowed: bool, mode: BlockMode, n: int) -> Seq<
    char,
>
    decreases n,
{
    if n <= 0 || n > hosts.len() {
        seq![]
    } else {
        gate_hosts(hosts, allowed, mode, n - 1) + if in_scope(mode, hosts[n - 1]) {
            host_line(if allowed { allowed_column() } else { blocked_column() }, hosts[n - 1])
        } else {
            seq![]
        }
    }
}

/// Gatekeep's text for the first `n` regions: each region's lines and a blank line.
pub open spec fn gate_regions(
    cat: Seq<RegionView>,
    allow: Seq<Seq<char>>,
    mode: BlockMode,
    n: int,
) -> Seq<char>
    decreases n,
{
    if n <= 0 || n > cat.len() {
        seq![]
    } else {
        gate_regions(cat, allow, mode, n - 1) + gate_hosts(
            cat[n - 1].1,
            allow.contains(cat[n - 1].0),
            mode,
            cat[n - 1].1.len() as int,
        ) + seq!['\n']
    }
}

/// Null-route lines, with the given address column, for the first `n` endpoints.
pub open spec fn null_hosts(column: Seq<char>, hosts: Seq<Seq<char>>, n: int) -> Seq<char>
    decreases n,
{
    if n <= 0 || n > hosts.len() {
        seq![]
    } else {
        null_hosts(column, hosts, n - 1) + host_line(column, hosts[n - 1])
    }
}

/// Null-route text for the first `n` regions: each region's lines and a blank line.
pub open spec fn null_regions(column: Seq<char>, cat: Seq<RegionView>, n: int) -> Seq<char>
    decreases n,
{
    if n <= 0 || n > cat.len() {
        seq![]
    } else {
        null_regions(column, cat, n - 1) + null_hosts(column, cat[n - 1].1, cat[n - 1].1.len() as int)
            + seq!['\n']
    }
}

/// Appends `column`, the endpoint and a line feed.
fn push_host_line(out: &mut Vec<char>, column: &str, host: &String)
    ensures
        final(out)@ == old(out)@ + host_line(column@, host@),
{
    push_str(out, column);
    push_str(out, host.as_str());
    out.push('\n');
    assert(final(out)@ =~= old(out)@ + host_line(column@, host@));
}

/// Appends Gatekeep's lines for one region and a blank line.
fn push_gate_region(out: &mut Vec<char>, info: &RegionInfo, allowed: bool, mode: BlockMode)
    ensures
        final(out)@ == old(out)@ + gate_hosts(
            string_views(info.hosts@),
            allowed,
            mode,
            info.hosts@.len() as int,
        ) + seq!['\n'],
{
    let ghost hosts = string_views(info.hosts@);
    let ghost start = out@;
    let ping = chars_of("ping");
    let mut j: usize = 0;
    while j < info.hosts.len()
        invariant
            hosts == string_views(info.hosts@),
            0 <= j <= info.hosts@.len(),
            out@ == start + gate_hosts(hosts, allowed, mode, j as int),
            ping@ == "ping"@,
        decreases info.hosts@.len() - j,
    {
        let host = &info.hosts[j];
        let is_ping = contains_exec(&chars_of(host.as_str()), &ping);
        let written = match mode {
            BlockMode::Both => true,
            BlockMode::OnlyPing => is_ping,
            BlockMode::OnlyService => !is_ping,
        };
        let ghost before = out@;
        if written {
            if allowed {
                push_host_line(out, "#         ", host);
            } else {
                push_host_line(out, "0.0.0.0   ", host);
            }
        }
        assert(out@ =~= start + gate_hosts(hosts, allowed, mode, j + 1));
        j = j + 1;
    }
    out.push('\n');
}

/// Appends null-route lines with the given column for one region and a blank line.
fn push_null_region(out: &mut Vec<char>, column: &str, info: &RegionInfo)
    ensures
        final(out)@ == old(out)@ + null_hosts(
            column@,
            string_views(info.hosts@),
            info.hosts@.len() as int,
        ) + seq!['\n'],
{
    let ghost hosts = string_views(info.hosts@);
    let ghost start = out@;
    let mut j: usize = 0;
    while j < info.hosts.len()
        invariant
            hosts == string_views(info.hosts@),
            0 <= j <= info.hosts@.len(),
            out@ == start + null_hosts(column@, hosts, j as int),
        decreases info.hosts@.len() - j,
    {
        push_host_line(out, column, &info.hosts[j]);
        assert(out@ =~= start + null_hosts(column@, hosts, j + 1));
        j = j + 1;
    }
    out.push('\n');
}

/// Appends null-route text with the given column for every region of `blocked`.
pub fn push_null_regions(out: &mut Vec<char>, column: &str, blocked: &Vec<(String, RegionInfo)>)
    ensures
        final(out)@ == old(out)@ + null_regions(
            column@,
            catalog_view(blocked@),
            blocked@.len() as int,
        ),
{
    let ghost cat = catalog_view(blocked@);
    let ghost start = out@;
    let mut i: usize = 0;
    while i < blocked.len()
        invariant
            cat == catalog_view(blocked@),
            0 <= i <= blocked@.len(),
            out@ == start + null_regions(column@, cat, i as int),
        decreases blocked@.len() - i,
    {
        push_null_region(out, column, &blocked[i].1);
        assert(out@ =~= start + null_regions(column@, cat, i + 1));
        i = i + 1;
    }
}

/// Appends Gatekeep's text for every region of the catalog.
pub fn push_gate_regions(
    out: &mut Vec<char>,
    regions: &Vec<(String, RegionInfo)>,
    allowed: &Vec<String>,
    mode: BlockMode,
)
    ensures
        final(out)@ == old(out)@ + gate_regions(
            catalog_view(regions@),
            string_views(allowed@),
            mode,
            regions@.len() as int,
        ),
{
    let ghost cat = catalog_view(regions@);
    let ghost start = out@;
    let mut i: usize = 0;
    while i < regions.len()
        invariant
            cat == catalog_view(regions@),
            0 <= i <= regions@.len(),
            out@ == start + gate_regions(cat, string_views(allowed@), mode, i as int),
        decreases regions@.len() - i,
    {
        let allow = holds(allowed, &regions[i].0);
        push_gate_region(out, &regions[i].1, allow, mode);
        assert(out@ =~= start + gate_regions(cat, string_views(allowed@), mode, i + 1));
        i = i + 1;
    }
}

/// Universal Redirect's scope test: the endpoint, lowercased, names "ping".
pub open spec fn is_ping_endpoint(h: Seq<char>) -> bool {
    contains(lower_of(h), "ping"@)
}

/// Universal Redirect's lines for the first `n` endpoints of a region.
pub open spec fn redirect_hosts(
    hosts: Seq<Seq<char>>,
    service_ip: Seq<char>,
    ping_ip: Seq<char>,
    n: int,
) -> Seq<char>
    decreases n,
{
    if n <= 0 || n > hosts.len() {
        seq![]
    } else {
        redirect_hosts(hosts, service_ip, ping_ip, n - 1) + host_line(
            (if is_ping_endpoint(hosts[n - 1]) {
                ping_ip
            } else {
                service_ip
            }) + seq![' '],
            hosts[n - 1],
        )
    }
}

/// Universal Redirect's text for the first `n` regions.
pub open spec fn redirect_regions(
    cat: Seq<RegionView>,
    service_ip: Seq<char>,
    ping_ip: Seq<char>,
    n: int,
) -> Seq<char>
    decreases n,
{
    if n <= 0 || n > cat.len() {
        seq![]
    } else {
        redirect_regions(cat, service_ip, ping_ip, n - 1) + redirect_hosts(
            cat[n - 1].1,
            service_ip,
            ping_ip,
            cat[n - 1].1.len() as int,
        ) + seq!['\n']
    }
}

/// Whether a lowercased endpoint answers latency probes (names "ping"); the
/// step of Universal Redirect that follows lowercasing an endpoint.
pub fn is_probe_lowered(lowered: &Vec<char>) -> (r: bool)
    ensures
        r == contains(lowered@, "ping"@),
{
    contains_exec(lowered, &chars_of("ping"))
}

/// Appends Universal Redirect's lines for one region and a blank line.
fn push_redirect_region(out: &mut Vec<char>, info: &RegionInfo, service_ip: &str, ping_ip: &str)
    ensures
        final(out)@ == old(out)@ + redirect_hosts(
            string_views(info.hosts@),
            service_ip@,
            ping_ip@,
            info.hosts@.len() as int,
        ) + seq!['\n'],
{
    let ghost hosts = string_views(info.hosts@);
    let ghost start = out@;
    let mut j: usize = 0;
    while j < info.hosts.len()
        invariant
            hosts == string_views(info.hosts@),
            0 <= j <= info.hosts@.len(),
            out@ == start + redirect_hosts(hosts, service_ip@, ping_ip@, j as int),
        decreases info.hosts@.len() - j,
    {
        let host = &info.hosts[j];
        let lowered = lowercase(&chars_of(host.as_str()));
        let ghost before = out@;
        if is_probe_lowered(&lowered) {
            push_str(out, ping_ip);
        } else {
            push_str(out, service_ip);
        }
        out.push(' ');
        push_str(out, host.as_str());
        out.push('\n');
        assert(out@ =~= start + redirect_hosts(hosts, service_ip@, ping_ip@, j + 1));
        j = j + 1;
    }
    out.push('\n');
}

/// Appends Universal Redirect's text for every region of the catalog.
pub fn push_redirect_regions(
    out: &mut Vec<char>,
    regions: &Vec<(String, RegionInfo)>,
    service_ip: &str,
    ping_ip: &str,
)
    ensures
        final(out)@ == old(out)@ + redirect_regions(
            catalog_view(regions@),
            service_ip@,
            ping_ip@,
            regions@.len() as int,
        ),
{
    let ghost cat = catalog_view(regions@);
    let ghost start = out@;
    let mut i: usize = 0;
    while i < regions.len()
        invariant
            cat == catalog_view(regions@),
            0 <= i <= regions@.len(),
            out@ == start + redirect_regions(cat, service_ip@, ping_ip@, i as int),
        decreases regions@.len() - i,
    {
        push_redirect_region(out, &regions[i].1, service_ip, ping_ip);
        assert(out@ =~= start + redirect_regions(cat, service_ip@, ping_ip@, i + 1));
        i = i + 1;
    }
}

/// The column that Gatekeep writes in front of an endpoint.
pub open spec fn gate_column(allowed: bool) -> Seq<char> {
    if allowed {
        allowed_column()
    } else {
        blocked_column()
    }
}

/// Gatekeep writes a line for each in-scope endpoint among the first `n`.
pub proof fn lemma_gate_hosts_line(hosts: Seq<Seq<char>>, allowed: bool, mode: BlockMode, n: int, j: int)
    requires
        0 <= j < n <= hosts.len(),
        in_scope(mode, hosts[j]),
    ensures
        contains(gate_hosts(hosts, allowed, mode, n), host_line(gate_column(allowed), hosts[j])),
    decreases n,
{
    let x = host_line(gate_column(allowed), hosts[j]);
    let prev = gate_hosts(hosts, allowed, mode, n - 1);
    let last = if in_scope(mode, hosts[n - 1]) {
        host_line(gate_column(allowed), hosts[n - 1])
    } else {
        seq![]
    };
    assert(gate_hosts(hosts, allowed, mode, n) == prev + last);
    if j == n - 1 {
        lemma_contains_self(x);
    } else {
        lemma_gate_hosts_line(hosts, allowed, mode, n - 1, j);
    }
    lemma_contains_sides(prev, last, x);
}

/// Gatekeep writes, for each in-scope endpoint of the first `n` regions, a
/// line commented out if its region is allowed and null-routed if not.
pub proof fn lemma_gate_regions_line(
    cat: Seq<RegionView>,
    allow: Seq<Seq<char>>,
    mode: BlockMode,
    n: int,
    i: int,
    j: int,
)
    requires
        0 <= i < n <= cat.len(),
        0 <= j < cat[i].1.len(),
        in_scope(mode, cat[i].1[j]),
    ensures
        contains(
            gate_regions(cat, allow, mode, n),
            host_line(gate_column(allow.contains(cat[i].0)), cat[i].1[j]),
        ),
    decreases n,
{
    let x = host_line(gate_column(allow.contains(cat[i].0)), cat[i].1[j]);
    let prev = gate_regions(cat, allow, mode, n - 1);
    let block = gate_hosts(
        cat[n - 1].1,
        allow.contains(cat[n - 1].0),
        mode,
        cat[n - 1].1.len() as int,
    );
    assert(gate_regions(cat, allow, mode, n) == prev + block + seq!['\n']);
    if i == n - 1 {
        lemma_gate_hosts_line(cat[i].1, allow.contains(cat[i].0), mode, cat[i].1.len() as int, j);
        lemma_contains_sides(prev, block, x);
    } else {
        lemma_gate_regions_line(cat, allow, mode, n - 1, i, j);
        lemma_contains_sides(prev, block, x);
    }
    lemma_contains_sides(prev + block, seq!['\n'], x);
}

/// A null-route line for each endpoint of the first `n` regions.
pub proof fn lemma_null_regions_line(column: Seq<char>, cat: Seq<RegionView>, n: int, i: int, j: int)
    requires
        0 <= i < n <= cat.len(),
        0 <= j < cat[i].1.len(),
    ensures
        contains(null_regions(column, cat, n), host_line(column, cat[i].1[j])),
    decreases n,
{
    let x = host_line(column, cat[i].1[j]);
    let prev = null_regions(column, cat, n - 1);
    let block = null_hosts(column, cat[n - 1].1, cat[n - 1].1.len() as int);
    assert(null_regions(column, cat, n) == prev + block + seq!['\n']);
    if i == n - 1 {
        lemma_null_hosts_line(column, cat[i].1, cat[i].1.len() as int, j);
        lemma_contains_sides(prev, block, x);
    } else {
        lemma_null_regions_line(column, cat, n - 1, i, j);
        lemma_contains_sides(prev, block, x);
    }
    lemma_contains_sides(prev + block, seq!['\n'], x);
}

proof fn lemma_null_hosts_line(column: Seq<char>, hosts: Seq<Seq<char>>, n: int, j: int)
    requires
        0 <= j < n <= hosts.len(),
    ensures
        contains(null_hosts(column, hosts, n), host_line(column, hosts[j])),
    decreases n,
{
    let x = host_line(column, hosts[j]);
    let prev = null_hosts(column, hosts, n - 1);
    let last = host_line(column, hosts[n - 1]);
    if j == n - 1 {
        lemma_contains_self(x);
    } else {
        lemma_null_hosts_line(column, hosts, n - 1, j);
    }
    lemma_contains_sides(prev, last, x);
}

/// The column that Universal Redirect writes in front of an endpoint.
pub open spec fn redirect_column(h: Seq<char>, service_ip: Seq<char>, ping_ip: Seq<char>) -> Seq<
    char,
> {
    (if is_ping_endpoint(h) {
        ping_ip
    } else {
        service_ip
    }) + seq![' ']
}

proof fn lemma_redirect_hosts_line(
    hosts: Seq<Seq<char>>,
    service_ip: Seq<char>,
    ping_ip: Seq<char>,
    n: int,
    j: int,
)
    requires
        0 <= j < n <= hosts.len(),
    ensures
        contains(
            redirect_hosts(hosts, service_ip, ping_ip, n),
            host_line(redirect_column(hosts[j], service_ip, ping_ip), hosts[j]),
        ),
    decreases n,
{
    let x = host_line(redirect_column(hosts[j], service_ip, ping_ip), hosts[j]);
    let prev = redirect_hosts(hosts, service_ip, ping_ip, n - 1);
    let last = host_line(redirect_column(hosts[n - 1], service_ip, ping_ip), hosts[n - 1]);
    assert(redirect_hosts(hosts, service_ip, ping_ip, n) == prev + last);
    if j == n - 1 {
        lemma_contains_self(x);
    } else {
        lemma_redirect_hosts_line(hosts, service_ip, ping_ip, n - 1, j);
    }
    lemma_contains_sides(prev, last, x);
}

/// Universal Redirect writes, for each endpoint of the first `n` regions, the
/// line that sends it to the probe address if it names "ping", else to the
/// service address.
pub proof fn lemma_redirect_regions_line(
    cat: Seq<RegionView>,
    service_ip: Seq<char>,
    ping_ip: Seq<char>,
    n: int,
    i: int,
    j: int,
)
    requires
        0 <= i < n <= cat.len(),
        0 <= j < cat[i].1.len(),
    ensures
        contains(
            redirect_regions(cat, service_ip, ping_ip, n),
            host_line(redirect_column(cat[i].1[j], service_ip, ping_ip), cat[i].1[j]),
        ),
    decreases n,
{
    let x = host_line(redirect_column(cat[i].1[j], service_ip, ping_ip), cat[i].1[j]);
    let prev = redirect_regions(cat, service_ip, ping_ip, n - 1);
    let block = redirect_hosts(cat[n - 1].1, service_ip, ping_ip, cat[n - 1].1.len() as int);
    assert(redirect_regions(cat, service_ip, ping_ip, n) == prev + block + seq!['\n']);
    if i == n - 1 {
        lemma_redirect_hosts_line(cat[i].1, service_ip, ping_ip, cat[i].1.len() as int, j);
        lemma_contains_sides(prev, block, x);
    } else {
        lemma_redirect_regions_line(cat, service_ip, ping_ip, n - 1, i, j);
        lemma_contains_sides(prev, block, x);
    }
    lemma_contains_sides(prev + block, seq!['\n'], x);
}

} // verus!
