//! What the hosts file says outside and inside the managed section: the
//! endpoints that the catalog manages, the unowned lines that name one of them
//! (conflicts), their removal, and the endpoints that the section null-routes.

use vstd::prelude::*;
use crate::region::{catalog_view, RegionInfo, RegionView};
use crate::section::{closing, marker, opening, section_bounds, section_span, sentinels};
use crate::text::{
    chars_of, dedup, holds, holds_chars, lemma_dedup, lemma_dedup_push,
    lemma_find_from, lines, lines_exec, lower_of, lowercase, push_all, push_unique, same_chars,
    segments, segments_exec, concat, well_cut, lemma_segments_from, lemma_cut_unique,
    slice_chars, string_of, string_views, trim, trim_exec, views, words, words_exec,
};

verus! {

/// The lowercased endpoints of the first `n` hosts of a region.
pub open spec fn region_names(hosts: Seq<Seq<char>>, n: int) -> Seq<Seq<char>>
    decreases n,
{
    if n <= 0 || n > hosts.len() {
        seq![]
    } else {
        region_names(hosts, n - 1).push(lower_of(hosts[n - 1]))
    }
}

/// The lowercased endpoints of the first `n` regions, in catalog order.
pub open spec fn catalog_names(cat: Seq<RegionView>, n: int) -> Seq<Seq<char>>
    decreases n,
{
    if n <= 0 || n > cat.len() {
        seq![]
    } else {
        catalog_names(cat, n - 1) + region_names(cat[n - 1].1, cat[n - 1].1.len() as int)
    }
}

/// Every endpoint of the catalog, lowercased, each once, in catalog order.
pub open spec fn managed_names(cat: Seq<RegionView>) -> Seq<Seq<char>> {
    dedup(catalog_names(cat, cat.len() as int))
}

/// The lines of the file outside the managed section: those before it, then
/// those after it, each part split on its own.
pub open spec fn unowned_lines(d: Seq<char>) -> Seq<Seq<char>> {
    match section_bounds(d) {
        Some((s, e)) => lines(d.take(s)) + lines(d.subrange(e, d.len() as int)),
        None => lines(d),
    }
}

/// A hosts entry (not blank, not a comment, at least two words) whose second
/// word, lowercased, is a managed endpoint.
pub open spec fn is_conflict(line: Seq<char>, managed: Seq<Seq<char>>) -> bool {
    let t = trim(line);
    t.len() > 0 && t[0] != '#' && words(t).len() >= 2 && managed.contains(lower_of(words(t)[1]))
}

/// The trimmed conflicting lines among `ls`, in order.
pub open spec fn conflict_lines(ls: Seq<Seq<char>>, managed: Seq<Seq<char>>) -> Seq<Seq<char>>
    decreases ls.len(),
{
    if ls.len() == 0 {
        seq![]
    } else {
        let prev = conflict_lines(ls.drop_last(), managed);
        if is_conflict(ls.last(), managed) {
            prev.push(trim(ls.last()))
        } else {
            prev
        }
    }
}

/// The conflicts of a document: its unowned lines that name a managed
/// endpoint, trimmed, each once, in order of first appearance.
pub open spec fn conflicts_in(d: Seq<char>, managed: Seq<Seq<char>>) -> Seq<Seq<char>> {
    dedup(conflict_lines(unowned_lines(d), managed))
}

/// `x` is the trimmed text of a conflicting line of the file outside the
/// managed section of `d`.
pub open spec fn is_unowned_conflict(d: Seq<char>, managed: Seq<Seq<char>>, x: Seq<char>) -> bool {
    exists|j: int|
        0 <= j < unowned_lines(d).len() && x == trim(unowned_lines(d)[j]) && is_conflict(
            unowned_lines(d)[j],
            managed,
        )
}

/// The pieces of `segs` whose trimmed text is not among `drop`, concatenated
/// as they stand.
pub open spec fn kept_text(segs: Seq<Seq<char>>, drop: Seq<Seq<char>>) -> Seq<char>
    decreases segs.len(),
{
    if segs.len() == 0 {
        seq![]
    } else {
        let prev = kept_text(segs.drop_last(), drop);
        if drop.contains(trim(segs.last())) {
            prev
        } else {
            prev + segs.last()
        }
    }
}

/// The trimmed forms of the given lines.
pub open spec fn trims(cs: Seq<Seq<char>>) -> Seq<Seq<char>> {
    cs.map_values(|c: Seq<char>| trim(c))
}

/// The document without the lines whose trimmed text is that of a conflict:
/// every other line stays byte for byte, with its own terminator, and each
/// removed line goes with its terminator.
pub open spec fn cleared(d: Seq<char>, conflicts: Seq<Seq<char>>) -> Seq<char> {
    kept_text(segments(d), trims(conflicts))
}

/// The text between the opening and the closing sentinel; empty unless both stand.
pub open spec fn inner_text(d: Seq<char>) -> Seq<char> {
    match (opening(d), closing(d)) {
        (Some(f), Some(l)) => d.subrange(f + marker().len(), l),
        _ => seq![],
    }
}

/// The endpoints that a null-route entry names.
pub open spec fn route_names(line: Seq<char>) -> Seq<Seq<char>> {
    let t = trim(line);
    let w = words(t);
    if t.len() > 0 && t[0] != '#' && w.len() >= 2 && w[0] == "0.0.0.0"@ {
        w.drop_first()
    } else {
        seq![]
    }
}

/// The lowercased endpoints null-routed by the lines `ls`, in order.
pub open spec fn routed_names(ls: Seq<Seq<char>>) -> Seq<Seq<char>>
    decreases ls.len(),
{
    if ls.len() == 0 {
        seq![]
    } else {
        routed_names(ls.drop_last()) + route_names(ls.last()).map_values(|w: Seq<char>| lower_of(w))
    }
}

/// The endpoints that the managed section null-routes, lowercased, each once.
pub open spec fn blocked_names(d: Seq<char>) -> Seq<Seq<char>> {
    dedup(routed_names(lines(inner_text(d))))
}

/// Every endpoint of the catalog, lowercased, each once, in catalog order.
pub fn managed_hostnames(regions: &Vec<(String, RegionInfo)>) -> (r: Vec<String>)
    ensures
        string_views(r@) == managed_names(catalog_view(regions@)),
{
    let ghost cat = catalog_view(regions@);
    let mut out: Vec<String> = Vec::new();
    let mut i: usize = 0;
    while i < regions.len()
        invariant
            cat == catalog_view(regions@),
            0 <= i <= regions@.len(),
            string_views(out@) == dedup(catalog_names(cat, i as int)),
        decreases regions@.len() - i,
    {
        let hosts = &regions[i].1.hosts;
        let ghost hv = cat[i as int].1;
        let mut j: usize = 0;
        while j < hosts.len()
            invariant
                cat == catalog_view(regions@),
                0 <= i < regions@.len(),
                hosts == &regions@[i as int].1.hosts,
                hv == string_views(hosts@),
                0 <= j <= hosts@.len(),
                string_views(out@) == dedup(catalog_names(cat, i as int) + region_names(hv, j as int)),
            decreases hosts@.len() - j,
        {
            let low = string_of(&lowercase(&chars_of(hosts[j].as_str())));
            assert(catalog_names(cat, i as int) + region_names(hv, j + 1) =~= (catalog_names(
                cat,
                i as int,
            ) + region_names(hv, j as int)).push(low@));
            proof {
                lemma_dedup_push(catalog_names(cat, i as int) + region_names(hv, j as int), low@);
            }
            push_unique(&mut out, low);
            j = j + 1;
        }
        i = i + 1;
    }
    out
}

/// Whether a lowercased endpoint is among the managed ones; the step of
/// conflict detection that follows lowercasing an entry's second word.
pub fn is_managed_lowered(lowered: &Vec<char>, managed: &Vec<String>) -> (r: bool)
    ensures
        r == string_views(managed@).contains(lowered@),
{
    holds(managed, &string_of(lowered))
}

/// The lines of `d` outside its managed section.
fn unowned_line_vecs(d: &Vec<char>) -> (r: Vec<Vec<char>>)
    ensures
        views(r@) == unowned_lines(d@),
{
    match section_span(d) {
        Some((a, e)) => {
            let front = slice_chars(d, 0, a);
            let back = slice_chars(d, e, d.len());
            assert(front@ =~= d@.take(a as int));
            let mut out = lines_exec(&front);
            let mut rest = lines_exec(&back);
            let ghost v1 = views(out@);
            let ghost v2 = views(rest@);
            out.append(&mut rest);
            assert(views(out@) =~= v1 + v2);
            out
        },
        None => lines_exec(d),
    }
}

/// Every conflict is the trimmed text of an unowned line whose second word,
/// lowercased, is managed.
proof fn lemma_conflict_origin(ls: Seq<Seq<char>>, managed: Seq<Seq<char>>)
    ensures
        forall|x: Seq<char>|
            conflict_lines(ls, managed).contains(x) ==> exists|k: int|
                0 <= k < ls.len() && x == trim(ls[k]) && is_conflict(ls[k], managed),
    decreases ls.len(),
{
    if ls.len() > 0 {
        let t = ls.drop_last();
        lemma_conflict_origin(t, managed);
        let prev = conflict_lines(t, managed);
        assert forall|x: Seq<char>| conflict_lines(ls, managed).contains(x) implies exists|k: int|
            0 <= k < ls.len() && x == trim(ls[k]) && is_conflict(ls[k], managed) by {
            if prev.contains(x) {
                let k = choose|k: int|
                    0 <= k < t.len() && x == trim(t[k]) && is_conflict(t[k], managed);
                assert(ls[k] == t[k]);
            } else {
                let c = conflict_lines(ls, managed);
                let j = choose|j: int| 0 <= j < c.len() && c[j] == x;
                assert(j == prev.len());
                assert(x == trim(ls[ls.len() - 1]));
            }
        }
    }
}

/// The conflicts of `document` against the managed endpoints: unowned lines
/// that are hosts entries naming one of them as their second word, trimmed,
/// each once, in order of first appearance. Only a line of the file outside
/// the section is reported, and only one whose second word is managed.
pub fn find_conflicts(document: &str, managed: &Vec<String>) -> (r: Vec<String>)
    ensures
        string_views(r@) == conflicts_in(document@, string_views(managed@)),
        forall|k: int|
            #![trigger r@[k]]
            0 <= k < r@.len() ==> is_unowned_conflict(document@, string_views(managed@), r@[k]@),
        forall|k: int|
            #![trigger r@[k]]
            0 <= k < r@.len() ==> words(r@[k]@).len() >= 2 && string_views(managed@).contains(
                lower_of(words(r@[k]@)[1]),
            ),
{
    let ghost mv = string_views(managed@);
    let d = chars_of(document);
    let ls = unowned_line_vecs(&d);
    let ghost lv = views(ls@);
    let mut out: Vec<String> = Vec::new();
    let mut k: usize = 0;
    while k < ls.len()
        invariant
            mv == string_views(managed@),
            lv == views(ls@),
            0 <= k <= ls@.len(),
            string_views(out@) == dedup(conflict_lines(lv.take(k as int), mv)),
        decreases ls@.len() - k,
    {
        assert(lv.take(k + 1).drop_last() =~= lv.take(k as int));
        let t = trim_exec(&ls[k]);
        proof {
            lemma_dedup_push(conflict_lines(lv.take(k as int), mv), t@);
        }
        if t.len() > 0 && t[0] != '#' {
            let ws = words_exec(&t);
            if ws.len() >= 2 {
                let low = lowercase(&ws[1]);
                if is_managed_lowered(&low, managed) {
                    push_unique(&mut out, string_of(&t));
                }
            }
        }
        k = k + 1;
    }
    assert(lv.take(k as int) =~= lv);
    proof {
        let c = conflict_lines(lv, mv);
        lemma_dedup(c);
        lemma_conflict_origin(lv, mv);
        assert forall|k: int| 0 <= k < out@.len() implies is_unowned_conflict(
            document@,
            mv,
            out@[k]@,
        ) by {
            assert(string_views(out@)[k] == out@[k]@);
            assert(c.contains(out@[k]@));
        }
    }
    out
}

/// The document without the lines whose trimmed text is that of one of the
/// conflicts, matched over the whole document; every other line is kept byte
/// for byte with its terminator.
pub fn clear_lines(document: &str, conflicts: &Vec<String>) -> (r: String)
    ensures
        r@ == cleared(document@, string_views(conflicts@)),
{
    let ghost cv = string_views(conflicts@);
    let mut drop: Vec<Vec<char>> = Vec::new();
    let mut i: usize = 0;
    while i < conflicts.len()
        invariant
            cv == string_views(conflicts@),
            0 <= i <= conflicts@.len(),
            views(drop@) == trims(cv.take(i as int)),
        decreases conflicts@.len() - i,
    {
        let t = trim_exec(&chars_of(conflicts[i].as_str()));
        let ghost prev = views(drop@);
        drop.push(t);
        assert(cv.take(i + 1) =~= cv.take(i as int).push(cv[i as int]));
        assert(trims(cv.take(i + 1)) =~= prev.push(trim(cv[i as int])));
        assert(views(drop@) =~= prev.push(t@));
        i = i + 1;
    }
    assert(cv.take(i as int) =~= cv);
    let d = chars_of(document);
    let ls = segments_exec(&d);
    let ghost lv = views(ls@);
    let mut out: Vec<char> = Vec::new();
    let mut k: usize = 0;
    while k < ls.len()
        invariant
            lv == views(ls@),
            views(drop@) == trims(cv),
            0 <= k <= ls@.len(),
            out@ == kept_text(lv.take(k as int), trims(cv)),
        decreases ls@.len() - k,
    {
        assert(lv.take(k + 1).drop_last() =~= lv.take(k as int));
        assert(lv.take(k + 1).last() == ls@[k as int]@);
        let t = trim_exec(&ls[k]);
        if !holds_chars(&drop, &t) {
            push_all(&mut out, &ls[k]);
        }
        k = k + 1;
    }
    assert(lv.take(k as int) =~= lv);
    string_of(&out)
}

/// The endpoints that the managed section of `document` null-routes:
/// the words after `0.0.0.0` on its entries, lowercased, each once.
pub fn null_routed_hostnames(document: &str) -> (r: Vec<String>)
    ensures
        string_views(r@) == blocked_names(document@),
{
    let d = chars_of(document);
    let (first, last) = sentinels(&d);
    let inner = match (first, last) {
        (Some(f), Some(l)) => {
            proof {
                lemma_find_from(d@, marker(), f + marker().len());
            }
            slice_chars(&d, f + chars_of(crate::section::SECTION_MARKER).len(), l)
        },
        _ => Vec::new(),
    };
    let ls = lines_exec(&inner);
    let ghost lv = views(ls@);
    let null = chars_of("0.0.0.0");
    let mut out: Vec<String> = Vec::new();
    let mut k: usize = 0;
    while k < ls.len()
        invariant
            lv == views(ls@),
            lv == lines(inner_text(d@)),
            null@ == "0.0.0.0"@,
            0 <= k <= ls@.len(),
            string_views(out@) == dedup(routed_names(lv.take(k as int))),
        decreases ls@.len() - k,
    {
        assert(lv.take(k + 1).drop_last() =~= lv.take(k as int));
        let ghost before = routed_names(lv.take(k as int));
        let t = trim_exec(&ls[k]);
        if t.len() > 0 && t[0] != '#' {
            let ws = words_exec(&t);
            if ws.len() >= 2 && same_chars(&ws[0], &null) {
                let ghost names = views(ws@).drop_first().map_values(|w: Seq<char>| lower_of(w));
                let mut j: usize = 1;
                while j < ws.len()
                    invariant
                        1 <= j <= ws@.len(),
                        names == views(ws@).drop_first().map_values(|w: Seq<char>| lower_of(w)),
                        string_views(out@) == dedup(before + names.take(j - 1)),
                    decreases ws@.len() - j,
                {
                    let low = string_of(&lowercase(&ws[j]));
                    assert(before + names.take(j as int) =~= (before + names.take(j - 1)).push(low@));
                    proof {
                        lemma_dedup_push(before + names.take(j - 1), low@);
                    }
                    push_unique(&mut out, low);
                    j = j + 1;
                }
                assert(names.take(j - 1) =~= names);
            } else {
                assert(before + seq![] =~= before);
            }
        } else {
            assert(before + seq![] =~= before);
        }
        k = k + 1;
    }
    assert(lv.take(k as int) =~= lv);
    out
}

/// The pieces of `segs` whose trimmed text is not among `drop`.
pub open spec fn kept_segs(segs: Seq<Seq<char>>, drop: Seq<Seq<char>>) -> Seq<Seq<char>>
    decreases segs.len(),
{
    if segs.len() == 0 {
        seq![]
    } else {
        let prev = kept_segs(segs.drop_last(), drop);
        if drop.contains(trim(segs.last())) {
            prev
        } else {
            prev.push(segs.last())
        }
    }
}

proof fn lemma_kept(segs: Seq<Seq<char>>, drop: Seq<Seq<char>>)
    ensures
        kept_text(segs, drop) == concat(kept_segs(segs, drop)),
        forall|k: int|
            0 <= k < kept_segs(segs, drop).len() ==> !drop.contains(
                trim(#[trigger] kept_segs(segs, drop)[k]),
            ),
        forall|k: int|
            0 <= k < kept_segs(segs, drop).len() ==> exists|j: int|
                0 <= j < segs.len() && #[trigger] kept_segs(segs, drop)[k] == segs[j],
        well_cut(segs) ==> well_cut(kept_segs(segs, drop)),
    decreases segs.len(),
{
    if segs.len() > 0 {
        let t = segs.drop_last();
        lemma_kept(t, drop);
        let prev = kept_segs(t, drop);
        let ks = kept_segs(segs, drop);
        assert forall|k: int| 0 <= k < ks.len() implies exists|j: int|
            0 <= j < segs.len() && #[trigger] ks[k] == segs[j] by {
            if k < prev.len() {
                let j = choose|j: int| 0 <= j < t.len() && prev[k] == t[j];
                assert(ks[k] == prev[k]);
                assert(segs[j] == t[j]);
            } else {
                assert(ks[k] == segs[segs.len() - 1]);
            }
        }
        if !drop.contains(trim(segs.last())) {
            assert(ks.drop_last() =~= prev);
            assert forall|k: int| 0 <= k < ks.len() implies !drop.contains(trim(#[trigger] ks[k])) by {
                if k < prev.len() {
                    assert(ks[k] == prev[k]);
                }
            }
            if well_cut(segs) {
                assert(well_cut(t)) by {
                    assert forall|k: int| 0 <= k < t.len() implies #[trigger] t[k].len() > 0 by {
                        assert(t[k] == segs[k]);
                    }
                    assert forall|k: int, i: int|
                        0 <= k < t.len() && 0 <= i < t[k].len() - 1 implies #[trigger] t[k][i]
                        != '\n' by {
                        assert(t[k] == segs[k]);
                    }
                    assert forall|k: int| 0 <= k < t.len() - 1 implies #[trigger] t[k].last()
                        == '\n' by {
                        assert(t[k] == segs[k]);
                    }
                }
                assert forall|k: int| 0 <= k < ks.len() implies #[trigger] ks[k].len() > 0 by {
                    let j = choose|j: int| 0 <= j < segs.len() && ks[k] == segs[j];
                    assert(segs[j].len() > 0);
                }
                assert forall|k: int, i: int|
                    0 <= k < ks.len() && 0 <= i < ks[k].len() - 1 implies #[trigger] ks[k][i]
                    != '\n' by {
                    let j = choose|j: int| 0 <= j < segs.len() && ks[k] == segs[j];
                    assert(segs[j][i] != '\n');
                }
                assert forall|k: int| 0 <= k < ks.len() - 1 implies #[trigger] ks[k].last()
                    == '\n' by {
                    assert(ks[k] == prev[k]);
                    let j = choose|j: int| 0 <= j < t.len() && prev[k] == t[j];
                    assert(t[j] == segs[j]);
                    assert(segs[j].last() == '\n');
                }
            }
        } else {
            if well_cut(segs) {
                assert(well_cut(t)) by {
                    assert forall|k: int| 0 <= k < t.len() implies #[trigger] t[k].len() > 0 by {
                        assert(t[k] == segs[k]);
                    }
                    assert forall|k: int, i: int|
                        0 <= k < t.len() && 0 <= i < t[k].len() - 1 implies #[trigger] t[k][i]
                        != '\n' by {
                        assert(t[k] == segs[k]);
                    }
                    assert forall|k: int| 0 <= k < t.len() - 1 implies #[trigger] t[k].last()
                        == '\n' by {
                        assert(t[k] == segs[k]);
                    }
                }
            }
        }
    }
}

proof fn lemma_all_kept(segs: Seq<Seq<char>>, drop: Seq<Seq<char>>)
    requires
        forall|k: int| 0 <= k < segs.len() ==> !drop.contains(trim(#[trigger] segs[k])),
    ensures
        kept_text(segs, drop) == concat(segs),
    decreases segs.len(),
{
    if segs.len() > 0 {
        let t = segs.drop_last();
        assert forall|k: int| 0 <= k < t.len() implies !drop.contains(trim(#[trigger] t[k])) by {
            assert(t[k] == segs[k]);
        }
        lemma_all_kept(t, drop);
        assert(!drop.contains(trim(segs[segs.len() - 1])));
    }
}

/// Clearing the same conflicts twice leaves the file as the first clear left it.
pub proof fn lemma_clear_idempotent(d: Seq<char>, conflicts: Seq<Seq<char>>)
    ensures
        cleared(cleared(d, conflicts), conflicts) == cleared(d, conflicts),
{
    let drop = trims(conflicts);
    let segs = segments(d);
    lemma_segments_from(d, 0);
    lemma_kept(segs, drop);
    let ks = kept_segs(segs, drop);
    let c = concat(ks);
    lemma_segments_from(c, 0);
    assert(c.subrange(0, c.len() as int) =~= c);
    assert(d.subrange(0, d.len() as int) =~= d);
    lemma_cut_unique(segments(c), ks);
    lemma_all_kept(ks, drop);
}

} // verus!
