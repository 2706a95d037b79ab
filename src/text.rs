//! Character-level text model shared by the hosts-file and CIDR logic: lines,
//! trimming, whitespace-separated words and substring search, each stated as
//! a spec function over `Seq<char>` and implemented over `Vec<char>`.

use vstd::prelude::*;
use vstd::std_specs::iter::IteratorSpec;
use vstd::slice::slice_subrange;
use vstd::slice::slice_to_vec;

verus! {

broadcast use vstd::string::group_string_axioms;

/// What `str::to_lowercase` returns for the given characters.
pub uninterp spec fn lower_of(s: Seq<char>) -> Seq<char>;

/// The views of a sequence of character vectors.
pub open spec fn views(v: Seq<Vec<char>>) -> Seq<Seq<char>> {
    v.map_values(|x: Vec<char>| x@)
}

/// The views of a sequence of strings.
pub open spec fn string_views(v: Seq<String>) -> Seq<Seq<char>> {
    v.map_values(|x: String| x@)
}

/// An optional position as a mathematical integer.
pub open spec fn pos(o: Option<usize>) -> Option<int> {
    match o {
        Some(v) => Some(v as int),
        None => None,
    }
}

/// Whether `c` has the Unicode `White_Space` property, which is what
/// `char::is_whitespace` tests.
pub open spec fn is_ws(c: char) -> bool {
    let u = c as u32;
    (0x9 <= u && u <= 0xD) || u == 0x20 || u == 0x85 || u == 0xA0 || u == 0x1680 || (0x2000 <= u
        && u <= 0x200A) || u == 0x2028 || u == 0x2029 || u == 0x202F || u == 0x205F || u == 0x3000
}

/// `p` stands in `s` at position `i`.
pub open spec fn occurs_at(s: Seq<char>, p: Seq<char>, i: int) -> bool {
    0 <= i && i + p.len() <= s.len() && s.subrange(i, i + p.len()) == p
}

/// `p` stands somewhere in `s`.
pub open spec fn contains(s: Seq<char>, p: Seq<char>) -> bool {
    exists|i: int| occurs_at(s, p, i)
}

/// The first position at or after `from` where `p` stands in `s`.
pub open spec fn find_from(s: Seq<char>, p: Seq<char>, from: int) -> Option<int>
    decreases s.len() + 1 - from,
{
    if from < 0 || from + p.len() > s.len() {
        None
    } else if occurs_at(s, p, from) {
        Some(from)
    } else {
        find_from(s, p, from + 1)
    }
}

/// `s` without its leading whitespace.
pub open spec fn trim_start(s: Seq<char>) -> Seq<char>
    decreases s.len(),
{
    if s.len() > 0 && is_ws(s[0]) {
        trim_start(s.drop_first())
    } else {
        s
    }
}

/// `s` without its trailing whitespace.
pub open spec fn trim_end(s: Seq<char>) -> Seq<char>
    decreases s.len(),
{
    if s.len() > 0 && is_ws(s.last()) {
        trim_end(s.drop_last())
    } else {
        s
    }
}

/// `s` without leading or trailing whitespace (`str::trim`).
pub open spec fn trim(s: Seq<char>) -> Seq<char> {
    trim_end(trim_start(s))
}

/// The maximal runs of non-whitespace characters of `s`, in order
/// (`str::split_whitespace`).
pub open spec fn words(s: Seq<char>) -> Seq<Seq<char>>
    decreases s.len(),
{
    if s.len() == 0 {
        seq![]
    } else {
        let w = words(s.drop_last());
        let c = s.last();
        if is_ws(c) {
            w
        } else if s.len() >= 2 && !is_ws(s[s.len() - 2]) {
            w.update(w.len() - 1, w.last().push(c))
        } else {
            w.push(seq![c])
        }
    }
}

/// Position of the first line feed at or after `from`, or the length of `s`.
pub open spec fn line_end(s: Seq<char>, from: int) -> int
    decreases s.len() - from,
{
    if from < 0 || from >= s.len() {
        s.len() as int
    } else if s[from] == '\n' {
        from
    } else {
        line_end(s, from + 1)
    }
}

/// The line of `s` spanning `[from, end)`; a carriage return before the
/// terminating line feed is not part of it.
pub open spec fn line_text(s: Seq<char>, from: int, end: int) -> Seq<char> {
    let t = s.subrange(from, end);
    if end < s.len() && t.len() > 0 && t.last() == '\r' {
        t.drop_last()
    } else {
        t
    }
}

/// The lines of `s` that start at or after `from`.
pub open spec fn lines_from(s: Seq<char>, from: int) -> Seq<Seq<char>>
    decreases s.len() + 1 - from,
{
    if from < 0 || from >= s.len() {
        seq![]
    } else {
        let e = line_end(s, from);
        if e < from || e > s.len() {
            seq![]
        } else {
            seq![line_text(s, from, e)] + lines_from(s, e + 1)
        }
    }
}

/// The lines of `s` (`str::lines`): split at line feeds, a final line feed
/// opening no empty line.
pub open spec fn lines(s: Seq<char>) -> Seq<Seq<char>> {
    lines_from(s, 0)
}

/// The pieces of `s` that start at or after `from`, each a line with its own
/// terminating line feed (the last one without, where `s` does not end in one).
pub open spec fn segments_from(s: Seq<char>, from: int) -> Seq<Seq<char>>
    decreases s.len() + 1 - from,
{
    if from < 0 || from >= s.len() {
        seq![]
    } else {
        let e = line_end(s, from);
        if e < from || e > s.len() {
            seq![]
        } else if e == s.len() {
            seq![s.subrange(from, e)]
        } else {
            seq![s.subrange(from, e + 1)] + segments_from(s, e + 1)
        }
    }
}

/// `s` cut after each line feed: its lines with their terminators, byte for byte.
pub open spec fn segments(s: Seq<char>) -> Seq<Seq<char>> {
    segments_from(s, 0)
}

/// Lines joined with a line feed between each two.
pub open spec fn join_lines(ls: Seq<Seq<char>>) -> Seq<char>
    decreases ls.len(),
{
    if ls.len() == 0 {
        seq![]
    } else if ls.len() == 1 {
        ls[0]
    } else {
        join_lines(ls.drop_last()) + seq!['\n'] + ls.last()
    }
}

/// Relies on `String: FromIterator<&char>`: the string holds the given
/// characters in order.
#[verifier::external_body]
pub fn string_of(v: &Vec<char>) -> (r: String)
    ensures
        r@ == v@,
{
    v.iter().collect()
}

/// Relies on `str::to_lowercase`, whose result depends on the characters alone.
#[verifier::external_body]
pub fn lowercase(s: &Vec<char>) -> (r: Vec<char>)
    ensures
        r@ == lower_of(s@),
{
    s.iter().collect::<String>().to_lowercase().chars().collect()
}

/// The characters of `s`, in order.
pub fn chars_of(s: &str) -> (r: Vec<char>)
    ensures
        r@ == s@,
{
    let mut it = s.chars();
    let mut out: Vec<char> = Vec::new();
    loop
        invariant
            out@ + it.remaining() == s@,
            it.decrease() is Some,
        ensures
            out@ == s@,
        decreases it.decrease()->0,
    {
        match it.next() {
            Some(c) => {
                out.push(c);
            },
            None => {
                assert(out@ =~= s@);
                break;
            },
        }
    }
    out
}

/// The characters of `s[from..to]` as a vector of their own.
pub fn slice_chars(s: &Vec<char>, from: usize, to: usize) -> (r: Vec<char>)
    requires
        from <= to <= s@.len(),
    ensures
        r@ == s@.subrange(from as int, to as int),
{
    slice_to_vec(slice_subrange(s.as_slice(), from, to))
}

/// Appends the characters of `t` to `out`.
pub fn push_all(out: &mut Vec<char>, t: &Vec<char>)
    ensures
        final(out)@ == old(out)@ + t@,
{
    let mut tmp = slice_to_vec(t.as_slice());
    out.append(&mut tmp);
}

/// Appends the characters of `t` to `out`.
pub fn push_str(out: &mut Vec<char>, t: &str)
    ensures
        final(out)@ == old(out)@ + t@,
{
    let mut tmp = chars_of(t);
    out.append(&mut tmp);
}

/// `char::is_whitespace`.
pub fn is_whitespace(c: char) -> (r: bool)
    ensures
        r == is_ws(c),
{
    let u = c as u32;
    (0x9 <= u && u <= 0xD) || u == 0x20 || u == 0x85 || u == 0xA0 || u == 0x1680 || (0x2000 <= u
        && u <= 0x200A) || u == 0x2028 || u == 0x2029 || u == 0x202F || u == 0x205F || u == 0x3000
}

/// Whether `p` stands in `s` at position `i`.
pub fn occurs_at_exec(s: &Vec<char>, p: &Vec<char>, i: usize) -> (r: bool)
    ensures
        r == occurs_at(s@, p@, i as int),
{
    let n = s.len();
    if i > n || p.len() > n - i {
        return false;
    }
    let mut k: usize = 0;
    while k < p.len()
        invariant
            n == s@.len(),
            i + p@.len() <= s@.len(),
            0 <= k <= p@.len(),
            forall|j: int| 0 <= j < k ==> s@[i + j] == p@[j],
        decreases p@.len() - k,
    {
        assert(i + k < s@.len());
        if s[i + k] != p[k] {
            assert(s@.subrange(i as int, i + p@.len())[k as int] != p@[k as int]);
            return false;
        }
        k = k + 1;
    }
    assert(s@.subrange(i as int, i + p@.len()) =~= p@);
    true
}

/// The first position at or after `from` where `p` stands in `s`.
pub fn find_from_exec(s: &Vec<char>, p: &Vec<char>, from: usize) -> (r: Option<usize>)
    ensures
        pos(r) == find_from(s@, p@, from as int),
{
    let mut i = from;
    while i <= s.len() && p.len() <= s.len() - i
        invariant
            from <= i,
            find_from(s@, p@, from as int) == find_from(s@, p@, i as int),
        decreases s@.len() + 1 - i,
    {
        if occurs_at_exec(s, p, i) {
            return Some(i);
        }
        if i == s.len() {
            assert(find_from(s@, p@, i + 1) is None);
            return None;
        }
        i = i + 1;
    }
    None
}

/// What `find_from` returns: the first occurrence at or after `from`.
pub proof fn lemma_find_from(s: Seq<char>, p: Seq<char>, from: int)
    requires
        0 <= from,
    ensures
        find_from(s, p, from) matches Some(i) ==> {
            &&& from <= i
            &&& occurs_at(s, p, i)
            &&& forall|j: int| from <= j < i ==> !occurs_at(s, p, j)
        },
        find_from(s, p, from) is None ==> forall|j: int| from <= j ==> !occurs_at(s, p, j),
    decreases s.len() + 1 - from,
{
    if from + p.len() > s.len() {
    } else if occurs_at(s, p, from) {
    } else {
        lemma_find_from(s, p, from + 1);
    }
}

/// Whether `p` stands somewhere in `s`.
pub fn contains_exec(s: &Vec<char>, p: &Vec<char>) -> (r: bool)
    ensures
        r == contains(s@, p@),
{
    proof {
        lemma_find_from(s@, p@, 0);
    }
    match find_from_exec(s, p, 0) {
        Some(_) => true,
        None => {
            assert(!contains(s@, p@)) by {
                if contains(s@, p@) {
                    let j = choose|j: int| occurs_at(s@, p@, j);
                    assert(0 <= j);
                }
            }
            false
        },
    }
}

/// `s` without leading or trailing whitespace.
pub fn trim_exec(s: &Vec<char>) -> (r: Vec<char>)
    ensures
        r@ == trim(s@),
{
    let n = s.len();
    let mut a: usize = 0;
    assert(s@.subrange(0, n as int) =~= s@);
    while a < n && is_whitespace(s[a])
        invariant
            n == s@.len(),
            0 <= a <= n,
            trim_start(s@) == trim_start(s@.subrange(a as int, n as int)),
        decreases n - a,
    {
        assert(s@.subrange(a as int, n as int).drop_first() =~= s@.subrange(a + 1, n as int));
        a = a + 1;
    }
    assert(trim_start(s@) == s@.subrange(a as int, n as int));
    let mut b: usize = n;
    while b > a && is_whitespace(s[b - 1])
        invariant
            n == s@.len(),
            0 <= a <= b <= n,
            trim_start(s@) == s@.subrange(a as int, n as int),
            trim_end(trim_start(s@)) == trim_end(s@.subrange(a as int, b as int)),
        decreases b - a,
    {
        assert(s@.subrange(a as int, b as int).drop_last() =~= s@.subrange(a as int, b - 1));
        b = b - 1;
    }
    slice_chars(s, a, b)
}

/// The whitespace-separated words of `s`.
pub fn words_exec(s: &Vec<char>) -> (r: Vec<Vec<char>>)
    ensures
        views(r@) == words(s@),
{
    let mut done: Vec<Vec<char>> = Vec::new();
    let mut cur: Vec<char> = Vec::new();
    let mut i: usize = 0;
    while i < s.len()
        invariant
            0 <= i <= s@.len(),
            words(s@.take(i as int)) == views(done@) + (if i > 0 && !is_ws(s@[i - 1]) {
                seq![cur@]
            } else {
                Seq::<Seq<char>>::empty()
            }),
            !(i > 0 && !is_ws(s@[i - 1])) ==> cur@.len() == 0,
        decreases s@.len() - i,
    {
        let c = s[i];
        let in_word = i > 0 && !is_whitespace(s[i - 1]);
        assert(s@.take(i + 1).drop_last() =~= s@.take(i as int));
        assert(s@.take(i + 1).last() == c);
        let ghost prev_done = views(done@);
        let ghost prev_cur = cur@;
        if is_whitespace(c) {
            if in_word {
                done.push(cur);
                cur = Vec::new();
                assert(views(done@) =~= prev_done + seq![prev_cur]);
            }
        } else {
            cur.push(c);
            if in_word {
                assert((prev_done + seq![prev_cur]).update(prev_done.len() as int, prev_cur.push(c))
                    =~= prev_done + seq![cur@]);
            } else {
                assert(cur@ =~= seq![c]);
                assert(prev_done.push(seq![c]) =~= prev_done + seq![cur@]);
            }
        }
        i = i + 1;
    }
    let ghost prev_done = views(done@);
    let ghost prev_cur = cur@;
    if i > 0 && !is_whitespace(s[i - 1]) {
        done.push(cur);
        assert(views(done@) =~= prev_done + seq![prev_cur]);
    } else {
        assert(views(done@) =~= prev_done + Seq::<Seq<char>>::empty());
    }
    assert(s@.take(i as int) =~= s@);
    done
}

/// The lines of `s`.
pub fn lines_exec(s: &Vec<char>) -> (r: Vec<Vec<char>>)
    ensures
        views(r@) == lines(s@),
{
    let n = s.len();
    let mut out: Vec<Vec<char>> = Vec::new();
    let mut i: usize = 0;
    while i < n
        invariant
            n == s@.len(),
            0 <= i <= n,
            views(out@) + lines_from(s@, i as int) == lines(s@),
        decreases n - i,
    {
        let mut j: usize = i;
        while j < n && s[j] != '\n'
            invariant
                n == s@.len(),
                i <= j <= n,
                line_end(s@, i as int) == line_end(s@, j as int),
            decreases n - j,
        {
            j = j + 1;
        }
        assert(line_end(s@, i as int) == j);
        assert(lines_from(s@, i as int) == seq![line_text(s@, i as int, j as int)] + lines_from(
            s@,
            j + 1,
        ));
        assert(j == n ==> lines_from(s@, j + 1) == lines_from(s@, n as int));
        let mut line = slice_chars(s, i, j);
        if j < n && line.len() > 0 && line[line.len() - 1] == '\r' {
            line.pop();
            assert(line@ =~= s@.subrange(i as int, j as int).drop_last());
        }
        let ghost prev = views(out@);
        out.push(line);
        assert(views(out@) =~= prev + seq![line_text(s@, i as int, j as int)]);
        assert(views(out@) + lines_from(s@, j + 1) =~= prev + lines_from(s@, i as int));
        if j < n {
            i = j + 1;
        } else {
            i = j;
        }
    }
    assert(views(out@) + lines_from(s@, i as int) =~= views(out@));
    out
}

/// `s` cut after each line feed.
pub fn segments_exec(s: &Vec<char>) -> (r: Vec<Vec<char>>)
    ensures
        views(r@) == segments(s@),
{
    let n = s.len();
    let mut out: Vec<Vec<char>> = Vec::new();
    let mut i: usize = 0;
    while i < n
        invariant
            n == s@.len(),
            0 <= i <= n,
            views(out@) + segments_from(s@, i as int) == segments(s@),
        decreases n - i,
    {
        let mut j: usize = i;
        while j < n && s[j] != '\n'
            invariant
                n == s@.len(),
                i <= j <= n,
                line_end(s@, i as int) == line_end(s@, j as int),
            decreases n - j,
        {
            j = j + 1;
        }
        assert(line_end(s@, i as int) == j);
        let end = if j < n {
            j + 1
        } else {
            j
        };
        let piece = slice_chars(s, i, end);
        let ghost prev = views(out@);
        out.push(piece);
        assert(views(out@) =~= prev + seq![s@.subrange(i as int, end as int)]);
        if j < n {
            assert(segments_from(s@, i as int) == seq![s@.subrange(i as int, end as int)]
                + segments_from(s@, end as int));
            assert(views(out@) + segments_from(s@, end as int) =~= prev + segments_from(
                s@,
                i as int,
            ));
        } else {
            assert(segments_from(s@, i as int) == seq![s@.subrange(i as int, end as int)]);
            assert(views(out@) + segments_from(s@, end as int) =~= prev + segments_from(
                s@,
                i as int,
            ));
        }
        i = end;
    }
    assert(views(out@) + segments_from(s@, i as int) =~= views(out@));
    out
}

/// Lines joined with a line feed between each two.
pub fn join_lines_exec(ls: &Vec<Vec<char>>) -> (r: Vec<char>)
    ensures
        r@ == join_lines(views(ls@)),
{
    let mut out: Vec<char> = Vec::new();
    let mut k: usize = 0;
    while k < ls.len()
        invariant
            0 <= k <= ls@.len(),
            out@ == join_lines(views(ls@).take(k as int)),
        decreases ls@.len() - k,
    {
        assert(views(ls@).take(k + 1).drop_last() =~= views(ls@).take(k as int));
        if k > 0 {
            out.push('\n');
        } else {
            assert(out@ =~= seq![]);
        }
        push_all(&mut out, &ls[k]);
        k = k + 1;
        proof {
            if k == 1 {
                assert(out@ =~= views(ls@).take(k as int)[0]);
            } else {
                assert(out@ =~= join_lines(views(ls@).take(k - 1)) + seq!['\n'] + views(ls@)[k - 1]);
            }
        }
    }
    assert(views(ls@).take(k as int) =~= views(ls@));
    out
}

/// `s` with every repeated element after its first occurrence left out.
pub open spec fn dedup(s: Seq<Seq<char>>) -> Seq<Seq<char>>
    decreases s.len(),
{
    if s.len() == 0 {
        seq![]
    } else {
        let d = dedup(s.drop_last());
        if d.contains(s.last()) {
            d
        } else {
            d.push(s.last())
        }
    }
}

/// `dedup` keeps each element once and drops none.
pub proof fn lemma_dedup(s: Seq<Seq<char>>)
    ensures
        dedup(s).no_duplicates(),
        forall|x: Seq<char>| dedup(s).contains(x) <==> s.contains(x),
    decreases s.len(),
{
    if s.len() > 0 {
        lemma_dedup(s.drop_last());
        let d = dedup(s.drop_last());
        let t = s.drop_last();
        assert(s =~= t.push(s.last()));
        lemma_push_contains(t, s.last());
        lemma_push_contains(d, s.last());
    }
}

/// `dedup` of a sequence with one more element.
pub proof fn lemma_dedup_push(s: Seq<Seq<char>>, x: Seq<char>)
    ensures
        dedup(s.push(x)) == if dedup(s).contains(x) {
            dedup(s)
        } else {
            dedup(s).push(x)
        },
{
    assert(s.push(x).drop_last() =~= s);
}

/// What a sequence with one more element holds.
pub proof fn lemma_push_contains(t: Seq<Seq<char>>, y: Seq<char>)
    ensures
        forall|x: Seq<char>| #[trigger] t.push(y).contains(x) <==> t.contains(x) || x == y,
{
    assert forall|x: Seq<char>| #[trigger] t.push(y).contains(x) <==> t.contains(x) || x == y by {
        if t.contains(x) {
            let j = choose|j: int| 0 <= j < t.len() && t[j] == x;
            assert(t.push(y)[j] == x);
        }
        if x == y {
            assert(t.push(y)[t.len() as int] == x);
        }
        if t.push(y).contains(x) && x != y {
            let j = choose|j: int| 0 <= j < t.push(y).len() && t.push(y)[j] == x;
            assert(t[j] == x);
        }
    }
}

/// Appends `x` unless `out` already holds it.
pub fn push_unique(out: &mut Vec<String>, x: String)
    ensures
        string_views(final(out)@) == if string_views(old(out)@).contains(x@) {
            string_views(old(out)@)
        } else {
            string_views(old(out)@).push(x@)
        },
{
    if !holds(out, &x) {
        let ghost prev = string_views(out@);
        out.push(x);
        assert(string_views(out@) =~= prev.push(x@));
    }
}

/// Whether `v` holds a string equal to `x`.
pub fn holds(v: &Vec<String>, x: &String) -> (r: bool)
    ensures
        r == string_views(v@).contains(x@),
{
    let mut k: usize = 0;
    while k < v.len()
        invariant
            0 <= k <= v@.len(),
            forall|j: int| 0 <= j < k ==> v@[j]@ != x@,
        decreases v@.len() - k,
    {
        if v[k] == *x {
            assert(string_views(v@)[k as int] == x@);
            return true;
        }
        k = k + 1;
    }
    assert(!string_views(v@).contains(x@)) by {
        if string_views(v@).contains(x@) {
            let j = choose|j: int| 0 <= j < v@.len() && string_views(v@)[j] == x@;
            assert(v@[j]@ == x@);
        }
    }
    false
}

/// Whether `a` and `b` hold the same characters.
pub fn same_chars(a: &Vec<char>, b: &Vec<char>) -> (r: bool)
    ensures
        r == (a@ == b@),
{
    if a.len() != b.len() {
        return false;
    }
    let r = occurs_at_exec(a, b, 0);
    assert(a@.subrange(0, b@.len() as int) =~= a@);
    r
}

/// Whether `v` holds a vector with the characters of `x`.
pub fn holds_chars(v: &Vec<Vec<char>>, x: &Vec<char>) -> (r: bool)
    ensures
        r == views(v@).contains(x@),
{
    let mut k: usize = 0;
    while k < v.len()
        invariant
            0 <= k <= v@.len(),
            forall|j: int| 0 <= j < k ==> v@[j]@ != x@,
        decreases v@.len() - k,
    {
        if same_chars(&v[k], x) {
            assert(views(v@)[k as int] == x@);
            return true;
        }
        k = k + 1;
    }
    assert(!views(v@).contains(x@)) by {
        if views(v@).contains(x@) {
            let j = choose|j: int| 0 <= j < v@.len() && views(v@)[j] == x@;
            assert(v@[j]@ == x@);
        }
    }
    false
}

/// The pieces concatenated in order.
pub open spec fn concat(segs: Seq<Seq<char>>) -> Seq<char>
    decreases segs.len(),
{
    if segs.len() == 0 {
        seq![]
    } else {
        concat(segs.drop_last()) + segs.last()
    }
}

/// Pieces as `segments` cuts them: none empty, a line feed only at the end of
/// a piece, and every piece but the last ending in one.
pub open spec fn well_cut(segs: Seq<Seq<char>>) -> bool {
    &&& forall|k: int| 0 <= k < segs.len() ==> #[trigger] segs[k].len() > 0
    &&& forall|k: int, i: int|
        0 <= k < segs.len() && 0 <= i < segs[k].len() - 1 ==> #[trigger] segs[k][i] != '\n'
    &&& forall|k: int| 0 <= k < segs.len() - 1 ==> #[trigger] segs[k].last() == '\n'
}

proof fn lemma_concat_prepend(x: Seq<char>, rest: Seq<Seq<char>>)
    ensures
        concat(seq![x] + rest) == x + concat(rest),
    decreases rest.len(),
{
    if rest.len() > 0 {
        lemma_concat_prepend(x, rest.drop_last());
        assert((seq![x] + rest).drop_last() =~= seq![x] + rest.drop_last());
        assert((seq![x] + rest).last() == rest.last());
        assert(x + concat(rest.drop_last()) + rest.last() =~= x + (concat(rest.drop_last())
            + rest.last()));
    } else {
        assert(seq![x] + rest =~= seq![x]);
        assert(seq![x].drop_last() =~= Seq::<Seq<char>>::empty());
        assert(concat(Seq::<Seq<char>>::empty()) + x =~= x + concat(rest));
    }
}

proof fn lemma_line_end(s: Seq<char>, from: int)
    requires
        0 <= from <= s.len(),
    ensures
        from <= line_end(s, from) <= s.len(),
        forall|k: int| from <= k < line_end(s, from) ==> s[k] != '\n',
        line_end(s, from) < s.len() ==> s[line_end(s, from)] == '\n',
    decreases s.len() - from,
{
    if from < s.len() && s[from] != '\n' {
        lemma_line_end(s, from + 1);
    }
}

/// The pieces from `from` on are well cut and make up the rest of `s`.
pub proof fn lemma_segments_from(s: Seq<char>, from: int)
    requires
        0 <= from <= s.len(),
    ensures
        well_cut(segments_from(s, from)),
        concat(segments_from(s, from)) == s.subrange(from, s.len() as int),
    decreases s.len() + 1 - from,
{
    if from == s.len() {
        assert(s.subrange(from, s.len() as int) =~= Seq::<char>::empty());
    } else {
        lemma_line_end(s, from);
        let e = line_end(s, from);
        if e == s.len() {
            let x = s.subrange(from, e);
            assert(segments_from(s, from) == seq![x]);
            lemma_concat_prepend(x, Seq::<Seq<char>>::empty());
            assert(seq![x] + Seq::<Seq<char>>::empty() =~= seq![x]);
            assert(x + Seq::<char>::empty() =~= x);
        } else {
            let x = s.subrange(from, e + 1);
            let rest = segments_from(s, e + 1);
            lemma_segments_from(s, e + 1);
            assert(segments_from(s, from) == seq![x] + rest);
            lemma_concat_prepend(x, rest);
            assert(x + s.subrange(e + 1, s.len() as int) =~= s.subrange(from, s.len() as int));
            let segs = seq![x] + rest;
            assert forall|k: int| 0 <= k < segs.len() implies #[trigger] segs[k].len() > 0 by {
                if k > 0 {
                    assert(segs[k] == rest[k - 1]);
                }
            }
            assert forall|k: int, i: int|
                0 <= k < segs.len() && 0 <= i < segs[k].len() - 1 implies #[trigger] segs[k][i]
                != '\n' by {
                if k > 0 {
                    assert(segs[k] == rest[k - 1]);
                } else {
                    assert(segs[k][i] == s[from + i]);
                }
            }
            assert forall|k: int| 0 <= k < segs.len() - 1 implies #[trigger] segs[k].last()
                == '\n' by {
                if k > 0 {
                    assert(segs[k] == rest[k - 1]);
                } else {
                    assert(segs[0].last() == s[e]);
                }
            }
        }
    }
}

proof fn lemma_concat_len(segs: Seq<Seq<char>>)
    ensures
        segs.len() > 0 ==> concat(segs).len() == concat(segs.drop_last()).len() + segs.last().len(),
        segs.len() > 0 && segs.last().len() > 0 ==> concat(segs).last() == segs.last().last(),
{
}

/// Well-cut pieces are fixed by what they make up.
pub proof fn lemma_cut_unique(a: Seq<Seq<char>>, b: Seq<Seq<char>>)
    requires
        well_cut(a),
        well_cut(b),
        concat(a) == concat(b),
    ensures
        a == b,
    decreases a.len() + b.len(),
{
    let s = concat(a);
    if a.len() == 0 || b.len() == 0 {
        if a.len() > 0 {
            assert(a[a.len() - 1].len() > 0);
            lemma_concat_len(a);
        }
        if b.len() > 0 {
            assert(b[b.len() - 1].len() > 0);
            lemma_concat_len(b);
        }
        assert(a =~= b);
    } else {
        let la = a.last();
        let lb = b.last();
        assert(a[a.len() - 1].len() > 0);
        assert(b[b.len() - 1].len() > 0);
        let pa = s.len() - la.len();
        let pb = s.len() - lb.len();
        assert(s =~= concat(a.drop_last()) + la);
        assert(s =~= concat(b.drop_last()) + lb);
        assert(pa == pb) by {
            if pa < pb {
                let pre = concat(b.drop_last());
                assert(pre.len() == pb);
                assert(b.drop_last().len() > 0) by {
                    if b.drop_last().len() == 0 {
                        assert(pre =~= Seq::<char>::empty());
                    }
                }
                let w = b.drop_last();
                assert(w[w.len() - 1] == b[b.len() - 2]);
                assert(b[b.len() - 2].last() == '\n');
                assert(w.last().len() > 0);
                lemma_concat_len(w);
                assert(s[pb - 1] == pre[pb - 1]);
                assert(s[pb - 1] == la[pb - 1 - pa]);
                assert(a[a.len() - 1][pb - 1 - pa] != '\n');
            } else if pb < pa {
                let pre = concat(a.drop_last());
                assert(pre.len() == pa);
                assert(a.drop_last().len() > 0) by {
                    if a.drop_last().len() == 0 {
                        assert(pre =~= Seq::<char>::empty());
                    }
                }
                let w = a.drop_last();
                assert(w[w.len() - 1] == a[a.len() - 2]);
                assert(a[a.len() - 2].last() == '\n');
                assert(w.last().len() > 0);
                lemma_concat_len(w);
                assert(s[pa - 1] == pre[pa - 1]);
                assert(s[pa - 1] == lb[pa - 1 - pb]);
                assert(b[b.len() - 1][pa - 1 - pb] != '\n');
            }
        }
        assert(la =~= s.subrange(pa, s.len() as int));
        assert(lb =~= s.subrange(pb, s.len() as int));
        assert(concat(a.drop_last()) =~= s.take(pa));
        assert(concat(b.drop_last()) =~= s.take(pb));
        let da = a.drop_last();
        let db = b.drop_last();
        assert(well_cut(da)) by {
            assert forall|k: int| 0 <= k < da.len() implies #[trigger] da[k].len() > 0 by {
                assert(da[k] == a[k]);
            }
            assert forall|k: int, i: int|
                0 <= k < da.len() && 0 <= i < da[k].len() - 1 implies #[trigger] da[k][i]
                != '\n' by {
                assert(da[k] == a[k]);
            }
            assert forall|k: int| 0 <= k < da.len() - 1 implies #[trigger] da[k].last() == '\n' by {
                assert(da[k] == a[k]);
            }
        }
        assert(well_cut(db)) by {
            assert forall|k: int| 0 <= k < db.len() implies #[trigger] db[k].len() > 0 by {
                assert(db[k] == b[k]);
            }
            assert forall|k: int, i: int|
                0 <= k < db.len() && 0 <= i < db[k].len() - 1 implies #[trigger] db[k][i]
                != '\n' by {
                assert(db[k] == b[k]);
            }
            assert forall|k: int| 0 <= k < db.len() - 1 implies #[trigger] db[k].last() == '\n' by {
                assert(db[k] == b[k]);
            }
        }
        lemma_cut_unique(da, db);
        assert(a =~= da.push(la));
        assert(b =~= db.push(lb));
    }
}

/// What stands in either part stands in the whole.
pub proof fn lemma_contains_sides(a: Seq<char>, b: Seq<char>, x: Seq<char>)
    ensures
        contains(a, x) ==> contains(a + b, x),
        contains(b, x) ==> contains(a + b, x),
{
    if contains(a, x) {
        let i = choose|i: int| occurs_at(a, x, i);
        assert((a + b).subrange(i, i + x.len()) =~= a.subrange(i, i + x.len()));
        assert(occurs_at(a + b, x, i));
    }
    if contains(b, x) {
        let i = choose|i: int| occurs_at(b, x, i);
        assert((a + b).subrange(a.len() + i, a.len() + i + x.len()) =~= b.subrange(i, i + x.len()));
        assert(occurs_at(a + b, x, a.len() + i));
    }
}

/// A sequence stands in itself.
pub proof fn lemma_contains_self(x: Seq<char>)
    ensures
        contains(x, x),
{
    assert(x.subrange(0, x.len() as int) =~= x);
    assert(occurs_at(x, x, 0));
}

} // verus!
