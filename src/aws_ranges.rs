//! Classification of IPv4 addresses by the published CIDR ranges of the
//! cloud regions: parsing of the feed's prefixes, longest-prefix matching, and
//! the decisions that keep at most one refresh of the feed in flight.

use vstd::prelude::*;
use crate::text::{chars_of, same_chars, views};

verus! {

/// `c` is an ASCII decimal digit.
pub open spec fn is_digit(c: char) -> bool {
    '0' <= c && c <= '9'
}

/// Every character of `s` is a decimal digit.
pub open spec fn all_digits(s: Seq<char>) -> bool {
    forall|i: int| 0 <= i < s.len() ==> is_digit(#[trigger] s[i])
}

/// The number that the decimal digits `s` write.
pub open spec fn digits_value(s: Seq<char>) -> nat
    decreases s.len(),
{
    if s.len() == 0 {
        0
    } else {
        (digits_value(s.drop_last()) * 10 + ((s.last() as u32) - 48)) as nat
    }
}

/// The pieces of `s` between occurrences of `sep` (`str::split`): one more
/// than there are separators, empty pieces included.
pub open spec fn split_on(s: Seq<char>, sep: char) -> Seq<Seq<char>>
    decreases s.len(),
{
    if s.len() == 0 {
        seq![seq![]]
    } else {
        let prev = split_on(s.drop_last(), sep);
        if s.last() == sep {
            prev.push(seq![])
        } else {
            prev.update(prev.len() - 1, prev.last().push(s.last()))
        }
    }
}

/// The value of one dotted-quad component: one to three digits, no leading
/// zero, at most 255.
pub open spec fn octet(p: Seq<char>) -> Option<nat> {
    if 1 <= p.len() <= 3 && all_digits(p) && !(p.len() > 1 && p[0] == '0') && digits_value(p)
        <= 255 {
        Some(digits_value(p))
    } else {
        None
    }
}

/// The address that `s` writes in dotted-quad notation (`Ipv4Addr::from_str`).
pub open spec fn ipv4_of(s: Seq<char>) -> Option<u32> {
    let parts = split_on(s, '.');
    if parts.len() == 4 && octet(parts[0]) is Some && octet(parts[1]) is Some && octet(
        parts[2],
    ) is Some && octet(parts[3]) is Some {
        Some(
            (octet(parts[0])->0 * 16777216 + octet(parts[1])->0 * 65536 + octet(parts[2])->0 * 256
                + octet(parts[3])->0) as u32,
        )
    } else {
        None
    }
}

/// The prefix length that `s` writes (`u8::from_str`, then at most 32).
pub open spec fn prefix_len_of(s: Seq<char>) -> Option<u8> {
    let d = if s.len() > 0 && s[0] == '+' {
        s.drop_first()
    } else {
        s
    };
    if d.len() > 0 && all_digits(d) && digits_value(d) <= 32 {
        Some(digits_value(d) as u8)
    } else {
        None
    }
}

/// The netmask of a prefix length.
pub open spec fn mask_of(p: u8) -> u32 {
    if p == 0 {
        0
    } else {
        (0xFFFF_FFFFu32 << ((32 - p) as u32)) as u32
    }
}

/// The network, netmask and prefix length that a CIDR string writes.
pub open spec fn cidr_of(s: Seq<char>) -> Option<(u32, u32, u8)> {
    let parts = split_on(s, '/');
    if parts.len() == 2 && ipv4_of(parts[0]) is Some && prefix_len_of(parts[1]) is Some {
        let p = prefix_len_of(parts[1])->0;
        Some((ipv4_of(parts[0])->0 & mask_of(p), mask_of(p), p))
    } else {
        None
    }
}

/// The pieces of `s` between occurrences of `sep`.
pub fn split_chars(s: &Vec<char>, sep: char) -> (r: Vec<Vec<char>>)
    ensures
        views(r@) == split_on(s@, sep),
{
    let mut done: Vec<Vec<char>> = Vec::new();
    let mut cur: Vec<char> = Vec::new();
    let mut i: usize = 0;
    assert(s@.take(0) =~= Seq::<char>::empty());
    while i < s.len()
        invariant
            0 <= i <= s@.len(),
            split_on(s@.take(i as int), sep) == views(done@).push(cur@),
        decreases s@.len() - i,
    {
        assert(s@.take(i + 1).drop_last() =~= s@.take(i as int));
        let ghost prev_done = views(done@);
        let ghost prev_cur = cur@;
        let c = s[i];
        if c == sep {
            done.push(cur);
            cur = Vec::new();
            assert(views(done@).push(cur@) =~= prev_done.push(prev_cur).push(seq![]));
        } else {
            cur.push(c);
            assert(views(done@).push(cur@) =~= prev_done.push(prev_cur).update(
                prev_done.len() as int,
                prev_cur.push(c),
            ));
        }
        i = i + 1;
    }
    assert(s@.take(i as int) =~= s@);
    done.push(cur);
    done
}

/// The value of the digits `p`, while it stays at most `cap`; `cap + 1` once it exceeds it.
fn capped_value(p: &Vec<char>, cap: u32) -> (r: Option<u32>)
    requires
        cap <= 1000,
    ensures
        r is None <==> !all_digits(p@),
        r matches Some(v) ==> (if digits_value(p@) <= cap {
            v == digits_value(p@)
        } else {
            v == cap + 1
        }),
{
    let mut v: u32 = 0;
    let mut i: usize = 0;
    assert(p@.take(0) =~= Seq::<char>::empty());
    while i < p.len()
        invariant
            cap <= 1000,
            0 <= i <= p@.len(),
            all_digits(p@.take(i as int)),
            if digits_value(p@.take(i as int)) <= cap {
                v == digits_value(p@.take(i as int))
            } else {
                v == cap + 1
            },
        decreases p@.len() - i,
    {
        let c = p[i];
        if !('0' <= c && c <= '9') {
            assert(!is_digit(p@[i as int]));
            return None;
        }
        assert(p@.take(i + 1).drop_last() =~= p@.take(i as int));
        assert(p@.take(i + 1).last() == c);
        let ghost before = digits_value(p@.take(i as int));
        let d = (c as u32) - 48;
        if v <= cap {
            assert(v * 10 + d <= 10009) by (nonlinear_arith)
                requires
                    v <= 1000,
                    d <= 9,
            ;
            let n = v * 10 + d;
            if n <= cap {
                v = n;
            } else {
                v = cap + 1;
            }
        } else {
            assert(before * 10 + d > cap) by (nonlinear_arith)
                requires
                    before > cap,
            ;
        }
        assert(all_digits(p@.take(i + 1))) by {
            assert forall|k: int| 0 <= k < i + 1 implies is_digit(#[trigger] p@.take(i + 1)[k]) by {
                if k < i {
                    assert(p@.take(i + 1)[k] == p@.take(i as int)[k]);
                }
            }
        }
        i = i + 1;
    }
    assert(p@.take(i as int) =~= p@);
    Some(v)
}

/// The value of one dotted-quad component.
fn parse_octet(p: &Vec<char>) -> (r: Option<u32>)
    ensures
        r matches Some(v) ==> octet(p@) == Some(v as nat),
        r is None ==> octet(p@) is None,
{
    if p.len() == 0 || p.len() > 3 || (p.len() > 1 && p[0] == '0') {
        return None;
    }
    match capped_value(p, 255) {
        Some(v) => {
            if v <= 255 {
                Some(v)
            } else {
                None
            }
        },
        None => None,
    }
}

/// The address that `s` writes in dotted-quad notation.
pub fn parse_ipv4(s: &Vec<char>) -> (r: Option<u32>)
    ensures
        r == ipv4_of(s@),
{
    let parts = split_chars(s, '.');
    if parts.len() != 4 {
        return None;
    }
    assert(views(parts@)[0] == parts@[0]@);
    assert(views(parts@)[1] == parts@[1]@);
    assert(views(parts@)[2] == parts@[2]@);
    assert(views(parts@)[3] == parts@[3]@);
    let a = match parse_octet(&parts[0]) {
        Some(v) => v,
        None => return None,
    };
    let b = match parse_octet(&parts[1]) {
        Some(v) => v,
        None => return None,
    };
    let c = match parse_octet(&parts[2]) {
        Some(v) => v,
        None => return None,
    };
    let d = match parse_octet(&parts[3]) {
        Some(v) => v,
        None => return None,
    };
    assert(a * 16777216 + b * 65536 + c * 256 + d <= 0xFFFF_FFFF) by (nonlinear_arith)
        requires
            a <= 255,
            b <= 255,
            c <= 255,
            d <= 255,
    ;
    Some(a * 16777216 + b * 65536 + c * 256 + d)
}

/// The prefix length that `s` writes, at most 32.
fn parse_prefix_len(s: &Vec<char>) -> (r: Option<u8>)
    ensures
        r == prefix_len_of(s@),
{
    let digits = if s.len() > 0 && s[0] == '+' {
        let t = crate::text::slice_chars(s, 1, s.len());
        assert(t@ =~= s@.drop_first());
        t
    } else {
        crate::text::slice_chars(s, 0, s.len())
    };
    assert(digits@ =~= (if s@.len() > 0 && s@[0] == '+' {
        s@.drop_first()
    } else {
        s@
    }));
    if digits.len() == 0 {
        return None;
    }
    match capped_value(&digits, 32) {
        Some(v) => {
            if v <= 32 {
                Some(v as u8)
            } else {
                None
            }
        },
        None => None,
    }
}

/// The network, netmask and prefix length that a CIDR string writes; `None`
/// for an invalid address, a prefix length over 32, or another count of `/`.
pub fn parse_ipv4_cidr(cidr: &str) -> (r: Option<(u32, u32, u8)>)
    ensures
        r == cidr_of(cidr@),
{
    let s = chars_of(cidr);
    let parts = split_chars(&s, '/');
    if parts.len() != 2 {
        return None;
    }
    assert(views(parts@)[0] == parts@[0]@);
    assert(views(parts@)[1] == parts@[1]@);
    let ip = match parse_ipv4(&parts[0]) {
        Some(v) => v,
        None => return None,
    };
    let prefix_len = match parse_prefix_len(&parts[1]) {
        Some(v) => v,
        None => return None,
    };
    let mask: u32 = if prefix_len == 0 {
        0
    } else {
        u32::MAX << ((32 - prefix_len) as u32)
    };
    Some((ip & mask, mask, prefix_len))
}

/// The display name of a region code; an unknown code stands for itself.
pub open spec fn pretty_name(code: Seq<char>) -> Seq<char> {
    if code == "us-east-1"@ {
        "US East (N. Virginia)"@
    } else if code == "us-east-2"@ {
        "US East (Ohio)"@
    } else if code == "us-west-1"@ {
        "US West (N. California)"@
    } else if code == "us-west-2"@ {
        "US West (Oregon)"@
    } else if code == "ca-central-1"@ {
        "Canada (Central)"@
    } else if code == "sa-east-1"@ {
        "South America (SÃ£o Paulo)"@
    } else if code == "eu-west-1"@ {
        "Europe (Ireland)"@
    } else if code == "eu-west-2"@ {
        "Europe (London)"@
    } else if code == "eu-central-1"@ {
        "Europe (Frankfurt am Main)"@
    } else if code == "eu-north-1"@ {
        "Europe (Stockholm)"@
    } else if code == "eu-west-3"@ {
        "Europe (Paris)"@
    } else if code == "eu-south-1"@ {
        "Europe (Milan)"@
    } else if code == "ap-northeast-1"@ {
        "Asia Pacific (Tokyo)"@
    } else if code == "ap-northeast-2"@ {
        "Asia Pacific (Seoul)"@
    } else if code == "ap-south-1"@ {
        "Asia Pacific (Mumbai)"@
    } else if code == "ap-southeast-1"@ {
        "Asia Pacific (Singapore)"@
    } else if code == "ap-southeast-2"@ {
        "Asia Pacific (Sydney)"@
    } else if code == "ap-east-1"@ {
        "Asia Pacific (Hong Kong)"@
    } else if code == "af-south-1"@ {
        "Africa (Cape Town)"@
    } else if code == "me-south-1"@ {
        "Middle East (Bahrain)"@
    } else if code == "ap-northeast-3"@ {
        "Asia Pacific (Osaka)"@
    } else {
        code
    }
}

/// One published range: the masked network address, its netmask, the prefix
/// length and the region code.
#[derive(Debug)]
pub struct AwsCidr {
    pub network: u32,
    pub mask: u32,
    pub prefix_len: u8,
    pub region: String,
}

/// A range as plain values.
pub type CidrView = (u32, u32, u8, Seq<char>);

/// The plain values of a range.
pub open spec fn cidr_view(c: AwsCidr) -> CidrView {
    (c.network, c.mask, c.prefix_len, c.region@)
}

/// The plain values of a table of ranges.
pub open spec fn table_view(t: Seq<AwsCidr>) -> Seq<CidrView> {
    t.map_values(|c: AwsCidr| cidr_view(c))
}

/// One record of the published feed: its `ip_prefix` and `region` fields,
/// where they are strings.
#[derive(Debug)]
pub struct FeedRecord {
    pub ip_prefix: Option<String>,
    pub region: Option<String>,
}

/// The range a record contributes: none without a non-empty, valid IPv4 prefix;
/// a missing region reads as empty.
pub open spec fn record_range(r: FeedRecord) -> Option<CidrView> {
    match r.ip_prefix {
        Some(p) => if p@.len() > 0 && cidr_of(p@) is Some {
            let (n, m, l) = cidr_of(p@)->0;
            Some(
                (
                    n,
                    m,
                    l,
                    match r.region {
                        Some(g) => g@,
                        None => seq![],
                    },
                ),
            )
        } else {
            None
        },
        None => None,
    }
}

/// The table built from the records, in feed order, skipping those that
/// contribute no range.
pub open spec fn table_of(records: Seq<FeedRecord>) -> Seq<CidrView>
    decreases records.len(),
{
    if records.len() == 0 {
        seq![]
    } else {
        let prev = table_of(records.drop_last());
        match record_range(records.last()) {
            Some(c) => prev.push(c),
            None => prev,
        }
    }
}

/// The range covers the address.
pub open spec fn covers(c: CidrView, ip: u32) -> bool {
    ip & c.1 == c.0
}

/// Range `i` is the longest-prefix match for `ip`: it covers `ip`, no covering
/// range is longer, and every covering range before it is shorter.
pub open spec fn is_best_match(t: Seq<CidrView>, ip: u32, i: int) -> bool {
    &&& 0 <= i < t.len()
    &&& covers(t[i], ip)
    &&& forall|j: int| 0 <= j < t.len() && covers(t[j], ip) ==> t[j].2 <= t[i].2
    &&& forall|j: int| 0 <= j < i && covers(t[j], ip) ==> t[j].2 < t[i].2
}

/// The range a record contributes, if any.
fn range_of_record(rec: &FeedRecord) -> (r: Option<AwsCidr>)
    ensures
        match r {
            Some(c) => record_range(*rec) == Some(cidr_view(c)),
            None => record_range(*rec) is None,
        },
{
    let prefix = match &rec.ip_prefix {
        Some(p) => p,
        None => return None,
    };
    if prefix.as_str().is_empty() {
        return None;
    }
    match parse_ipv4_cidr(prefix.as_str()) {
        Some((network, mask, prefix_len)) => {
            let region = match &rec.region {
                Some(g) => g.clone(),
                None => String::new(),
            };
            Some(AwsCidr { network, mask, prefix_len, region })
        },
        None => None,
    }
}

/// The region table: the published ranges, in feed order.
pub struct AwsIpService {
    cidrs: Vec<AwsCidr>,
}

impl View for AwsIpService {
    type V = Seq<CidrView>;

    closed spec fn view(&self) -> Seq<CidrView> {
        table_view(self.cidrs@)
    }
}

impl AwsIpService {
    /// An empty table.
    pub fn new() -> (r: Self)
        ensures
            r@ == Seq::<CidrView>::empty(),
    {
        let r = AwsIpService { cidrs: Vec::new() };
        assert(r@ =~= Seq::<CidrView>::empty());
        r
    }

    /// Replaces the whole table by the ranges of a freshly fetched feed;
    /// records without a valid IPv4 prefix are skipped.
    pub fn replace_ranges(&mut self, records: &Vec<FeedRecord>)
        ensures
            final(self)@ == table_of(records@),
    {
        let mut list: Vec<AwsCidr> = Vec::new();
        let mut k: usize = 0;
        while k < records.len()
            invariant
                0 <= k <= records@.len(),
                table_view(list@) == table_of(records@.take(k as int)),
            decreases records@.len() - k,
        {
            assert(records@.take(k + 1).drop_last() =~= records@.take(k as int));
            let ghost prev = table_view(list@);
            match range_of_record(&records[k]) {
                Some(c) => {
                    list.push(c);
                    assert(table_view(list@) =~= prev.push(cidr_view(list@.last())));
                },
                None => {},
            }
            k = k + 1;
        }
        assert(records@.take(k as int) =~= records@);
        self.cidrs = list;
    }

    /// The display name of the region whose range is the longest-prefix match
    /// for the address, in the table as it stands (a caller that wants fresh
    /// ranges refreshes first); `None` for an address that is not IPv4 or that
    /// no range covers.
    pub fn get_region(&self, ip_str: &str) -> (r: Option<String>)
        ensures
            ipv4_of(ip_str@) is None ==> r is None,
            ipv4_of(ip_str@) matches Some(ip) ==> (r is None <==> forall|j: int|
                0 <= j < self@.len() ==> !covers(#[trigger] self@[j], ip)),
            ipv4_of(ip_str@) matches Some(ip) ==> (r matches Some(name) ==> exists|i: int|
                is_best_match(self@, ip, i) && name@ == pretty_name(self@[i].3)),
    {
        let ip = match parse_ipv4(&chars_of(ip_str)) {
            Some(v) => v,
            None => return None,
        };
        let ghost t = self@;
        let mut best: Option<usize> = None;
        let mut i: usize = 0;
        while i < self.cidrs.len()
            invariant
                t == self@,
                t == table_view(self.cidrs@),
                0 <= i <= self.cidrs@.len(),
                match best {
                    None => forall|j: int| 0 <= j < i ==> !covers(#[trigger] t[j], ip),
                    Some(b) => {
                        &&& b < i
                        &&& covers(t[b as int], ip)
                        &&& forall|j: int| 0 <= j < i && covers(t[j], ip) ==> t[j].2 <= t[b as int].2
                        &&& forall|j: int| 0 <= j < b && covers(t[j], ip) ==> t[j].2 < t[b as int].2
                    },
                },
            decreases self.cidrs@.len() - i,
        {
            let c = &self.cidrs[i];
            if ip & c.mask == c.network {
                let better = match best {
                    None => true,
                    Some(b) => c.prefix_len > self.cidrs[b].prefix_len,
                };
                if better {
                    best = Some(i);
                }
            }
            i = i + 1;
        }
        match best {
            None => None,
            Some(b) => {
                assert(is_best_match(t, ip, b as int));
                Some(Self::get_pretty_region_name(self.cidrs[b].region.as_str()))
            },
        }
    }

    /// The display name of a region code; an unknown code is returned as it is.
    pub fn get_pretty_region_name(region_code: &str) -> (r: String)
        ensures
            r@ == pretty_name(region_code@),
    {
        let code = chars_of(region_code);
        if same_chars(&code, &chars_of("us-east-1")) {
            return "US East (N. Virginia)".to_owned();
        }
        if same_chars(&code, &chars_of("us-east-2")) {
            return "US East (Ohio)".to_owned();
        }
        if same_chars(&code, &chars_of("us-west-1")) {
            return "US West (N. California)".to_owned();
        }
        if same_chars(&code, &chars_of("us-west-2")) {
            return "US West (Oregon)".to_owned();
        }
        if same_chars(&code, &chars_of("ca-central-1")) {
            return "Canada (Central)".to_owned();
        }
        if same_chars(&code, &chars_of("sa-east-1")) {
            return "South America (SÃ£o Paulo)".to_owned();
        }
        if same_chars(&code, &chars_of("eu-west-1")) {
            return "Europe (Ireland)".to_owned();
        }
        if same_chars(&code, &chars_of("eu-west-2")) {
            return "Europe (London)".to_owned();
        }
        if same_chars(&code, &chars_of("eu-central-1")) {
            return "Europe (Frankfurt am Main)".to_owned();
        }
        if same_chars(&code, &chars_of("eu-north-1")) {
            return "Europe (Stockholm)".to_owned();
        }
        if same_chars(&code, &chars_of("eu-west-3")) {
            return "Europe (Paris)".to_owned();
        }
        if same_chars(&code, &chars_of("eu-south-1")) {
            return "Europe (Milan)".to_owned();
        }
        if same_chars(&code, &chars_of("ap-northeast-1")) {
            return "Asia Pacific (Tokyo)".to_owned();
        }
        if same_chars(&code, &chars_of("ap-northeast-2")) {
            return "Asia Pacific (Seoul)".to_owned();
        }
        if same_chars(&code, &chars_of("ap-south-1")) {
            return "Asia Pacific (Mumbai)".to_owned();
        }
        if same_chars(&code, &chars_of("ap-southeast-1")) {
            return "Asia Pacific (Singapore)".to_owned();
        }
        if same_chars(&code, &chars_of("ap-southeast-2")) {
            return "Asia Pacific (Sydney)".to_owned();
        }
        if same_chars(&code, &chars_of("ap-east-1")) {
            return "Asia Pacific (Hong Kong)".to_owned();
        }
        if same_chars(&code, &chars_of("af-south-1")) {
            return "Africa (Cape Town)".to_owned();
        }
        if same_chars(&code, &chars_of("me-south-1")) {
            return "Middle East (Bahrain)".to_owned();
        }
        if same_chars(&code, &chars_of("ap-northeast-3")) {
            return "Asia Pacific (Osaka)".to_owned();
        }
        region_code.to_owned()
    }
}

/// What a caller that wants fresh ranges does next.
#[derive(Clone, Copy, Debug, PartialEq, Eq, Structural)]
pub enum RefreshStep {
    /// No fetch is in flight: this caller fetches the feed.
    Fetch,
    /// A fetch is in flight: this caller waits for its outcome.
    Wait,
}

/// The guard that keeps at most one fetch of the feed in flight. Callers that
/// arrive during a fetch wait for it and share its outcome instead of
/// fetching again. Each finished fetch advances a counter of finished fetches.
pub struct RefreshGate {
    in_flight: bool,
    completed: u64,
    last_ok: bool,
}

impl View for RefreshGate {
    /// Whether a fetch is in flight, how many fetches have finished (modulo
    /// 2^64), and whether the last one succeeded.
    type V = (bool, u64, bool);

    closed spec fn view(&self) -> (bool, u64, bool) {
        (self.in_flight, self.completed, self.last_ok)
    }
}

impl RefreshGate {
    /// No fetch in flight and none finished.
    pub fn new() -> (r: Self)
        ensures
            r@ == (false, 0u64, false),
    {
        RefreshGate { in_flight: false, completed: 0, last_ok: false }
    }

    /// A caller asks for fresh ranges. Without a fetch in flight it is told to
    /// fetch and the guard closes; with one, it is told to wait. Either way it
    /// gets the count of finished fetches to wait past.
    pub fn begin(&mut self) -> (r: (RefreshStep, u64))
        ensures
            old(self)@.0 ==> r == (RefreshStep::Wait, old(self)@.1) && final(self)@ == old(self)@,
            !old(self)@.0 ==> r == (RefreshStep::Fetch, old(self)@.1) && final(self)@ == (
                true,
                old(self)@.1,
                old(self)@.2,
            ),
    {
        if self.in_flight {
            (RefreshStep::Wait, self.completed)
        } else {
            self.in_flight = true;
            (RefreshStep::Fetch, self.completed)
        }
    }

    /// The fetch in flight ended, with the given outcome; the guard opens and
    /// the count of finished fetches advances.
    pub fn finish(&mut self, ok: bool)
        ensures
            final(self)@ == (
                false,
                (if old(self)@.1 == u64::MAX {
                    0
                } else {
                    old(self)@.1 + 1
                }) as u64,
                ok,
            ),
    {
        self.in_flight = false;
        self.completed = if self.completed == u64::MAX {
            0
        } else {
            self.completed + 1
        };
        self.last_ok = ok;
    }

    /// For a caller that waits past the count `ticket`: `None` while that
    /// fetch has not finished, else whether the last fetch succeeded.
    pub fn outcome(&self, ticket: u64) -> (r: Option<bool>)
        ensures
            self@.1 == ticket ==> r is None,
            self@.1 != ticket ==> r == Some(self@.2),
    {
        if self.completed == ticket {
            None
        } else {
            Some(self.last_ok)
        }
    }
}

} // verus!
