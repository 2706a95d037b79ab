//! The managed section of the hosts file: the block between the first two
//! occurrences of a sentinel line, which this library owns and rewrites while
//! leaving every other byte of the file as it was.
//!
//! Positions are character indices into the text.

use vstd::prelude::*;
use crate::text::{
    chars_of, contains, find_from, find_from_exec, lemma_find_from, occurs_at, pos, push_all,
    push_str, slice_chars, string_of,
};

verus! {

/// The sentinel that opens and closes the managed section.
pub const SECTION_MARKER: &'static str = "# --+ Make Your Choice +--";

/// The sentinel's characters.
pub open spec fn marker() -> Seq<char> {
    SECTION_MARKER@
}

/// Position of the first sentinel.
pub open spec fn opening(d: Seq<char>) -> Option<int> {
    find_from(d, marker(), 0)
}

/// Position of the first sentinel that starts after the end of the opening one.
pub open spec fn closing(d: Seq<char>) -> Option<int> {
    match opening(d) {
        Some(f) => find_from(d, marker(), f + marker().len()),
        None => None,
    }
}

/// `e`, moved past a line feed that stands there.
pub open spec fn past_line_feed(d: Seq<char>, e: int) -> int {
    if 0 <= e < d.len() && d[e] == '\n' {
        e + 1
    } else {
        e
    }
}

/// The span `[start, end)` that the managed section occupies: none without a
/// sentinel; from the only sentinel to the end of the text; or from the
/// opening sentinel through the closing one and the line feed after it.
pub open spec fn section_bounds(d: Seq<char>) -> Option<(int, int)> {
    match opening(d) {
        None => None,
        Some(f) => match closing(d) {
            None => Some((f, d.len() as int)),
            Some(l) => Some((f, past_line_feed(d, l + marker().len()))),
        },
    }
}

/// `s` without its trailing line feeds.
pub open spec fn strip_line_feeds(s: Seq<char>) -> Seq<char>
    decreases s.len(),
{
    if s.len() > 0 && s.last() == '\n' {
        strip_line_feeds(s.drop_last())
    } else {
        s
    }
}

/// The block written for `inner`: nothing for empty content, else the content
/// ending in exactly one line feed, between two sentinel lines.
pub open spec fn wrap(inner: Seq<char>) -> Seq<char> {
    if inner.len() == 0 {
        seq![]
    } else {
        marker() + seq!['\n'] + strip_line_feeds(inner) + seq!['\n'] + marker() + seq!['\n']
    }
}

/// The line feeds put between an unmanaged text and a block appended to it,
/// so that a blank line separates them.
pub open spec fn separator(d: Seq<char>) -> Seq<char> {
    if d.len() > 0 && d.last() == '\n' {
        seq!['\n']
    } else {
        seq!['\n', '\n']
    }
}

/// The text with its managed section replaced by the block for `inner`; where
/// it has none, the block is appended (and empty content leaves it as it is).
pub open spec fn section_replaced(d: Seq<char>, inner: Seq<char>) -> Seq<char> {
    match section_bounds(d) {
        Some((s, e)) => d.take(s) + wrap(inner) + d.subrange(e, d.len() as int),
        None => if inner.len() == 0 {
            d
        } else {
            d + separator(d) + wrap(inner)
        },
    }
}

proof fn lemma_marker_shape()
    ensures
        marker().len() == 26,
        marker()[0] == '#',
        marker()[25] == '-',
        forall|k: int| 0 < k < marker().len() ==> marker()[k] != '#',
{
    reveal_strlit("# --+ Make Your Choice +--");
}

/// Two occurrences of the sentinel never overlap: it holds `#` only in front.
proof fn lemma_no_overlap(r: Seq<char>, a: int, b: int)
    requires
        occurs_at(r, marker(), a),
        occurs_at(r, marker(), b),
        a < b,
    ensures
        a + marker().len() <= b,
{
    lemma_marker_shape();
    if b < a + marker().len() {
        assert(r.subrange(b, b + marker().len())[0] == r[b]);
        assert(r.subrange(a, a + marker().len())[b - a] == r[b]);
    }
}

/// An occurrence with none before it (from `from` on) is what `find_from` finds.
proof fn lemma_first_at(r: Seq<char>, from: int, q: int)
    requires
        0 <= from <= q,
        occurs_at(r, marker(), q),
        forall|j: int| from <= j < q ==> !occurs_at(r, marker(), j),
    ensures
        find_from(r, marker(), from) == Some(q),
{
    lemma_find_from(r, marker(), from);
}

/// No occurrence starts in `p` when `p` holds none and one starts right after it.
proof fn lemma_none_before(p: Seq<char>, t: Seq<char>)
    requires
        !contains(p, marker()),
        occurs_at(p + t, marker(), p.len() as int),
    ensures
        forall|j: int| 0 <= j < p.len() ==> !occurs_at(p + t, marker(), j),
{
    let r = p + t;
    let m = marker().len();
    assert forall|j: int| 0 <= j < p.len() implies !occurs_at(r, marker(), j) by {
        if occurs_at(r, marker(), j) {
            if j + m <= p.len() {
                assert(p.subrange(j, j + m) =~= r.subrange(j, j + m));
                assert(occurs_at(p, marker(), j));
            } else {
                lemma_no_overlap(r, j, p.len() as int);
            }
        }
    }
}

/// The content with its trailing line feeds removed is a prefix of it.
proof fn lemma_strip_is_prefix(s: Seq<char>)
    ensures
        strip_line_feeds(s).len() <= s.len(),
        strip_line_feeds(s) == s.take(strip_line_feeds(s).len() as int),
    decreases s.len(),
{
    if s.len() > 0 && s.last() == '\n' {
        lemma_strip_is_prefix(s.drop_last());
        assert(s.drop_last().take(strip_line_feeds(s).len() as int) =~= s.take(
            strip_line_feeds(s).len() as int,
        ));
    } else {
        assert(s.take(s.len() as int) =~= s);
    }
}

/// A text free of sentinels stays free of them with line feeds appended.
proof fn lemma_no_marker_with_line_feeds(d: Seq<char>, t: Seq<char>)
    requires
        !contains(d, marker()),
        forall|k: int| 0 <= k < t.len() ==> t[k] == '\n',
    ensures
        !contains(d + t, marker()),
{
    lemma_marker_shape();
    let r = d + t;
    let m = marker().len();
    assert forall|j: int| !occurs_at(r, marker(), j) by {
        if occurs_at(r, marker(), j) {
            if j + m <= d.len() {
                assert(d.subrange(j, j + m) =~= r.subrange(j, j + m));
                assert(occurs_at(d, marker(), j));
            } else {
                assert(r.subrange(j, j + m)[m - 1] == r[j + m - 1]);
            }
        }
    }
}

/// In `p + wrap(x) + s`, where `p` holds no sentinel and `x` none, the managed
/// section is exactly the written block.
proof fn lemma_wrapped_bounds(p: Seq<char>, x: Seq<char>, s: Seq<char>)
    requires
        x.len() > 0,
        !contains(x, marker()),
        !contains(p, marker()),
    ensures
        section_bounds(p + wrap(x) + s) == Some((p.len() as int, (p.len() + wrap(x).len()) as int)),
        forall|j: int| 0 <= j < p.len() ==> !occurs_at(p + wrap(x) + s, marker(), j),
{
    lemma_marker_shape();
    let m = marker().len();
    let n = strip_line_feeds(x);
    let w = wrap(x);
    let r = p + w + s;
    let a = p.len() as int;
    let c = a + m + 1 + n.len();
    assert(w.len() == m + 1 + n.len() + 1 + m + 1);
    assert(r.subrange(a, a + m) =~= marker());
    assert(r.subrange(c + 1, c + 1 + m) =~= marker());
    assert(r == p + (w + s));
    lemma_none_before(p, w + s);
    lemma_first_at(r, 0, a);
    assert(opening(r) == Some(a));
    lemma_strip_is_prefix(x);
    assert forall|j: int| a + m <= j < c + 1 implies !occurs_at(r, marker(), j) by {
        if occurs_at(r, marker(), j) {
            if j == a + m {
                assert(r.subrange(j, j + m)[0] == r[j]);
            } else if j + m <= c {
                let q = j - (a + m + 1);
                assert(r.subrange(j, j + m) =~= x.subrange(q, q + m));
                assert(occurs_at(x, marker(), q));
            } else {
                lemma_no_overlap(r, j, c + 1);
            }
        }
    }
    lemma_first_at(r, a + m, c + 1);
    assert(closing(r) == Some(c + 1));
    assert(r[c + 1 + m] == '\n');
}

/// A text without sentinels has no managed section.
proof fn lemma_unmanaged(d: Seq<char>)
    requires
        !contains(d, marker()),
    ensures
        opening(d) is None,
        section_bounds(d) is None,
{
    lemma_find_from(d, marker(), 0);
}

/// The text in front of the managed section holds no sentinel.
proof fn lemma_front_unmanaged(d: Seq<char>)
    requires
        opening(d) is Some,
    ensures
        !contains(d.take(opening(d)->0), marker()),
{
    lemma_find_from(d, marker(), 0);
    let f = opening(d)->0;
    let m = marker().len();
    assert forall|j: int| !occurs_at(d.take(f), marker(), j) by {
        if occurs_at(d.take(f), marker(), j) {
            lemma_marker_shape();
            assert(d.take(f).subrange(j, j + m) =~= d.subrange(j, j + m));
            assert(occurs_at(d, marker(), j));
        }
    }
}

/// `section_replaced(d, x)` for non-empty `x` is `front + wrap(x) + back`, where
/// `front` holds no sentinel and `front + back` is what stays of `d` outside
/// its managed section.
proof fn lemma_layout(d: Seq<char>, x: Seq<char>) -> (r: (Seq<char>, Seq<char>))
    requires
        x.len() > 0,
    ensures
        !contains(r.0, marker()),
        section_replaced(d, x) == r.0 + wrap(x) + r.1,
        r.0 + r.1 == (if section_bounds(d) is Some {
            section_replaced(d, seq![])
        } else {
            d + separator(d)
        }),
{
    match section_bounds(d) {
        Some((a, e)) => {
            lemma_front_unmanaged(d);
            let back = d.subrange(e, d.len() as int);
            assert(section_replaced(d, seq![]) =~= d.take(a) + back);
            (d.take(a), back)
        },
        None => {
            if contains(d, marker()) {
                let j = choose|j: int| occurs_at(d, marker(), j);
                lemma_find_from(d, marker(), 0);
            }
            lemma_no_marker_with_line_feeds(d, separator(d));
            assert(d + separator(d) + wrap(x) =~= d + separator(d) + wrap(x) + seq![]);
            (d + separator(d), seq![])
        },
    }
}

/// Writing a block into a file that has no sentinel keeps every byte of the
/// file as a prefix, adds only line feeds as a separator, and leaves exactly
/// one occurrence of the block, right after them.
pub proof fn lemma_append_to_unmanaged(d: Seq<char>, x: Seq<char>)
    requires
        !contains(d, marker()),
        x.len() > 0,
    ensures
        section_replaced(d, x) == d + separator(d) + wrap(x),
        d.is_prefix_of(section_replaced(d, x)),
        separator(d) == seq!['\n'] || separator(d) == seq!['\n', '\n'],
        forall|q: int|
            occurs_at(section_replaced(d, x), wrap(x), q) <==> q == d.len() + separator(d).len(),
{
    lemma_unmanaged(d);
    lemma_marker_shape();
    let p = d + separator(d);
    let w = wrap(x);
    let r = section_replaced(d, x);
    lemma_no_marker_with_line_feeds(d, separator(d));
    assert(r == p + w);
    assert(r.subrange(0, d.len() as int) =~= d);
    assert(r.subrange(p.len() as int, (p.len() + w.len()) as int) =~= w);
    assert(r.subrange(p.len() as int, (p.len() + marker().len()) as int) =~= marker());
    assert(occurs_at(p + w, marker(), p.len() as int));
    lemma_none_before(p, w);
    assert forall|q: int| occurs_at(r, w, q) implies q == p.len() by {
        assert(r.subrange(q, q + w.len()).subrange(0, marker().len() as int) =~= r.subrange(
            q,
            q + marker().len(),
        ));
        assert(w.subrange(0, marker().len() as int) =~= marker());
        assert(occurs_at(r, marker(), q));
    }
}

/// Writing the same content twice leaves the file as the first write left it.
/// Fails only where the content itself holds a sentinel, or, for empty
/// content, where removing the section brings another sentinel to light.
pub proof fn lemma_replace_idempotent(d: Seq<char>, x: Seq<char>)
    requires
        x.len() > 0 ==> !contains(x, marker()),
        x.len() == 0 ==> !contains(section_replaced(d, x), marker()),
    ensures
        section_replaced(section_replaced(d, x), x) == section_replaced(d, x),
{
    if x.len() > 0 {
        let (p, s) = lemma_layout(d, x);
        lemma_wrapped_bounds(p, x, s);
        let r = p + wrap(x) + s;
        assert(r.take(p.len() as int) =~= p);
        assert(r.subrange((p.len() + wrap(x).len()) as int, r.len() as int) =~= s);
    } else {
        lemma_unmanaged(section_replaced(d, x));
    }
}

/// Reverting after a write removes exactly the written block: what remains is
/// the file with its former managed section taken out, or, where it had none,
/// the file followed by the separator that the write put in front of the block.
pub proof fn lemma_revert(d: Seq<char>, x: Seq<char>)
    requires
        x.len() > 0,
        !contains(x, marker()),
    ensures
        section_replaced(section_replaced(d, x), seq![]) == (if section_bounds(d) is Some {
            section_replaced(d, seq![])
        } else {
            d + separator(d)
        }),
{
    let (p, s) = lemma_layout(d, x);
    lemma_wrapped_bounds(p, x, s);
    let r = p + wrap(x) + s;
    assert(r.take(p.len() as int) =~= p);
    assert(r.subrange((p.len() + wrap(x).len()) as int, r.len() as int) =~= s);
    assert(wrap(seq![]) =~= seq![]);
    assert(p + wrap(seq![]) + s =~= p + s);
}

/// The positions of the opening and the closing sentinel in `d`.
pub fn sentinels(d: &Vec<char>) -> (r: (Option<usize>, Option<usize>))
    ensures
        pos(r.0) == opening(d@),
        pos(r.1) == closing(d@),
        r.0 matches Some(f) ==> f + marker().len() <= d@.len(),
        r.1 matches Some(l) ==> l + marker().len() <= d@.len(),
{
    let m = chars_of(SECTION_MARKER);
    proof {
        lemma_find_from(d@, marker(), 0);
    }
    match find_from_exec(d, &m, 0) {
        None => (None, None),
        Some(f) => {
            let n = d.len();
            assert(f + m@.len() <= n);
            let after = f + m.len();
            proof {
                lemma_find_from(d@, marker(), after as int);
            }
            (Some(f), find_from_exec(d, &m, after))
        },
    }
}

/// The span of the managed section of `d`.
pub fn section_span(d: &Vec<char>) -> (r: Option<(usize, usize)>)
    ensures
        r matches Some((a, b)) ==> section_bounds(d@) == Some((a as int, b as int)) && a <= b
            <= d@.len(),
        r is None ==> section_bounds(d@) is None,
{
    let (first, last) = sentinels(d);
    match first {
        None => None,
        Some(f) => match last {
            None => Some((f, d.len())),
            Some(l) => {
                proof {
                    lemma_find_from(d@, marker(), f + marker().len());
                }
                let m = chars_of(SECTION_MARKER);
                let n = d.len();
                assert(l + m@.len() <= n);
                let e = l + m.len();
                if e < d.len() && d[e] == '\n' {
                    Some((f, e + 1))
                } else {
                    Some((f, e))
                }
            },
        },
    }
}

/// Where the managed section of `text` stands, in characters: none without a
/// sentinel; from the only sentinel to the end; or from the opening sentinel
/// through the closing one and the line feed after it.
pub fn locate_section(text: &str) -> (r: Option<(usize, usize)>)
    ensures
        r matches Some((a, b)) ==> section_bounds(text@) == Some((a as int, b as int)),
        r is None ==> section_bounds(text@) is None,
{
    let d = chars_of(text);
    section_span(&d)
}

/// The block written for `inner`.
fn wrapped_block(inner: &Vec<char>) -> (r: Vec<char>)
    ensures
        r@ == wrap(inner@),
{
    if inner.len() == 0 {
        return Vec::new();
    }
    let mut k = inner.len();
    assert(inner@.take(k as int) =~= inner@);
    while k > 0 && inner[k - 1] == '\n'
        invariant
            0 <= k <= inner@.len(),
            strip_line_feeds(inner@) == strip_line_feeds(inner@.take(k as int)),
        decreases k,
    {
        assert(inner@.take(k as int).drop_last() =~= inner@.take(k - 1));
        k = k - 1;
    }
    let mut out: Vec<char> = Vec::new();
    push_str(&mut out, SECTION_MARKER);
    out.push('\n');
    let body = slice_chars(inner, 0, k);
    assert(body@ =~= inner@.take(k as int));
    push_all(&mut out, &body);
    out.push('\n');
    push_str(&mut out, SECTION_MARKER);
    out.push('\n');
    assert(out@ =~= wrap(inner@));
    out
}

/// `text` with its managed section replaced by the block for `inner`: empty
/// content removes the section with both sentinels; without a section the
/// block is appended after a blank line, and empty content changes nothing.
pub fn replace_section(text: &str, inner: &str) -> (r: String)
    ensures
        r@ == section_replaced(text@, inner@),
{
    let d = chars_of(text);
    let x = chars_of(inner);
    let w = wrapped_block(&x);
    let mut out: Vec<char> = Vec::new();
    match section_span(&d) {
        Some((a, e)) => {
            let front = slice_chars(&d, 0, a);
            let back = slice_chars(&d, e, d.len());
            push_all(&mut out, &front);
            push_all(&mut out, &w);
            push_all(&mut out, &back);
            assert(front@ =~= d@.take(a as int));
        },
        None => {
            if x.len() == 0 {
                return string_of(&d);
            }
            push_all(&mut out, &d);
            if d.len() > 0 && d[d.len() - 1] == '\n' {
                out.push('\n');
            } else {
                out.push('\n');
                out.push('\n');
            }
            assert(out@ =~= d@ + separator(d@));
            push_all(&mut out, &w);
        },
    }
    string_of(&out)
}

} // verus!
