//! The static list of surveillance and tracking domains that proxied
//! sessions never load.
use vstd::prelude::*;
use crate::text::{chars_of, ends_with, ends_with_spec, lowercase_spec, starts_with, starts_with_spec, string_of, to_lowercase, trim_spec};
use crate::web_proxy::registry::{tail, trimmed_lowercase};

verus! {

/// The tracking domains blocked by default.
pub open spec fn default_trackers() -> Seq<Seq<char>> {
    seq![
        "graph.facebook.com"@,
        "pixel.facebook.com"@,
        "connect.facebook.net"@,
        "www.facebook.com/tr"@,
        "an.facebook.com"@,
        "google-analytics.com"@,
        "www.google-analytics.com"@,
        "analytics.google.com"@,
        "doubleclick.net"@,
        "adservice.google.com"@,
        "googletagmanager.com"@,
        "googletagservices.com"@,
        "googlesyndication.com"@,
        "hotjar.com"@,
        "static.hotjar.com"@,
        "mixpanel.com"@,
        "api.mixpanel.com"@,
        "segment.io"@,
        "api.segment.io"@,
        "cdn.segment.com"@,
        "amplitude.com"@,
        "api2.amplitude.com"@,
        "heap.io"@,
        "heapanalytics.com"@,
        "fullstory.com"@,
        "rs.fullstory.com"@,
        "intercom.io"@,
        "widget.intercom.io"@,
        "clarity.ms"@,
        "www.clarity.ms"@,
        "adsystem.com"@,
        "adnxs.com"@,
        "adsrvr.org"@,
        "advertising.com"@,
        "adobedtm.com"@,
        "scorecardresearch.com"@,
        "chartbeat.com"@,
        "chartbeat.net"@,
        "criteo.com"@,
        "static.criteo.net"@,
        "outbrain.com"@,
        "taboola.com"@,
        "tpc.googlesyndication.com"@,
        "fingerprintjs.com"@,
        "fpjscdn.net"@,
        "deviceatlas.com"@,
        "quantserve.com"@,
        "quantcast.com"@,
        "bluekai.com"@,
        "exelator.com"@,
        "turn.com"@,
        "rubiconproject.com"@,
        "openx.net"@,
        "pubmatic.com"@,
        "appnexus.com"@,
        "static.ads-twitter.com"@,
        "t.co"@,
        "analytics.twitter.com"@,
        "analytics.tiktok.com"@,
        "log.tiktok.com"@,
        "aax-us-east.amazon-adsystem.com"@,
        "s.amazon-adsystem.com"@,
        "bat.bing.com"@,
        "c.msn.com"@,
        "sentry.io"@,
        "browser.sentry-cdn.com"@
    ]
}

/// `d` is a listed domain or a subdomain of one.
pub open spec fn blocked_by(list: Seq<Seq<char>>, d: Seq<char>) -> bool {
    exists|i: int| 0 <= i < list.len() && (d == list[i] || ends_with_spec(d, seq!['.'] + list[i]))
}

/// `s` with every leading copy of `p` removed.
pub open spec fn strip_all(s: Seq<char>, p: Seq<char>) -> Seq<char>
    decreases s.len(),
{
    if p.len() > 0 && starts_with_spec(s, p) {
        strip_all(s.skip(p.len() as int), p)
    } else {
        s
    }
}

/// The position of the first `c` in `s` at or after `i`, or the length.
pub open spec fn first_pos(s: Seq<char>, c: char, i: int) -> int
    decreases s.len() - i,
{
    if i < 0 || i >= s.len() {
        s.len() as int
    } else if s[i] == c {
        i
    } else {
        first_pos(s, c, i + 1)
    }
}

/// `s` up to its first `c`.
pub open spec fn until_char(s: Seq<char>, c: char) -> Seq<char> {
    s.take(first_pos(s, c, 0))
}

/// The host part of a URL: schemes removed, cut at the first '/' and '?',
/// lower-cased.
pub open spec fn extract_domain_spec(url: Seq<char>) -> Seq<char> {
    lowercase_spec(until_char(until_char(strip_all(strip_all(url, "https://"@), "http://"@), '/'), '?'))
}

/// The first `c` in `d + [c] + p` at or after `i` is the one after `d`
/// when `d` holds no `c`.
proof fn lemma_first_pos_after(d: Seq<char>, c: char, p: Seq<char>, i: int)
    requires
        0 <= i <= d.len(),
        forall|k: int| 0 <= k < d.len() ==> d[k] != c,
    ensures
        first_pos(d + seq![c] + p, c, i) == d.len(),
    decreases d.len() - i,
{
    let u = d + seq![c] + p;
    if i < d.len() {
        assert(u[i] == d[i]);
        lemma_first_pos_after(d, c, p, i + 1);
    } else {
        assert(u[i] == c);
    }
}

/// The first `c` in `d` is past its end when `d` holds none.
proof fn lemma_first_pos_none(d: Seq<char>, c: char, i: int)
    requires
        0 <= i <= d.len(),
        forall|k: int| 0 <= k < d.len() ==> d[k] != c,
    ensures
        first_pos(d, c, i) == d.len(),
    decreases d.len() - i,
{
    if i < d.len() {
        lemma_first_pos_none(d, c, i + 1);
    }
}

/// Host `d` (no '/', '?' or ':') followed by a path `"/" + p`: it is left
/// as it is by both scheme strips.
proof fn lemma_no_scheme(d: Seq<char>, p: Seq<char>)
    requires
        forall|k: int| 0 <= k < d.len() ==> d[k] != '/' && d[k] != '?' && d[k] != ':',
    ensures
        strip_all(d + seq!['/'] + p, "https://"@) == d + seq!['/'] + p,
        strip_all(d + seq!['/'] + p, "http://"@) == d + seq!['/'] + p,
{
    let u = d + seq!['/'] + p;
    reveal_strlit("https://");
    reveal_strlit("http://");
    if starts_with_spec(u, "https://"@) {
        if d.len() > 5 {
            assert(u[5] == d[5]);
            assert(u.subrange(0, 8)[5] == ':');
        } else if d.len() == 5 {
            assert(u[5] == '/');
            assert(u.subrange(0, 8)[5] == ':');
        } else {
            assert(u[d.len() as int] == '/');
            assert(u.subrange(0, 8)[d.len() as int] != '/');
        }
    }
    if starts_with_spec(u, "http://"@) {
        if d.len() > 4 {
            assert(u[4] == d[4]);
            assert(u.subrange(0, 7)[4] == ':');
        } else {
            assert(u[d.len() as int] == '/');
            assert(u.subrange(0, 7)[d.len() as int] != '/');
        }
    }
}

/// The scheme does not decide what is blocked: for a host `d` (no '/', '?'
/// or ':') and any path `p`, the host taken from `"http://" + d + "/" + p`
/// and from `"https://" + d + "/" + p` is `d` lower-cased, so a URL is
/// blocked under either scheme exactly when its host is.
pub proof fn law_scheme_is_stripped(d: Seq<char>, p: Seq<char>)
    requires
        forall|k: int| 0 <= k < d.len() ==> d[k] != '/' && d[k] != '?' && d[k] != ':',
    ensures
        extract_domain_spec("http://"@ + d + "/"@ + p) == lowercase_spec(d),
        extract_domain_spec("https://"@ + d + "/"@ + p) == lowercase_spec(d),
{
    reveal_strlit("https://");
    reveal_strlit("http://");
    reveal_strlit("/");
    let rest = d + seq!['/'] + p;
    assert("/"@ =~= seq!['/']);
    let u1 = "http://"@ + d + "/"@ + p;
    let u2 = "https://"@ + d + "/"@ + p;
    assert(u1 =~= "http://"@ + rest);
    assert(u2 =~= "https://"@ + rest);
    lemma_no_scheme(d, p);
    // http
    assert(!starts_with_spec(u1, "https://"@)) by {
        if starts_with_spec(u1, "https://"@) {
            assert(u1[4] == ':');
            assert(u1.subrange(0, 8)[4] == 's');
        }
    }
    assert(strip_all(u1, "https://"@) == u1);
    assert(starts_with_spec(u1, "http://"@)) by {
        assert(u1.subrange(0, 7) =~= "http://"@);
    }
    assert(u1.skip(7) =~= rest);
    assert(strip_all(u1, "http://"@) == strip_all(rest, "http://"@));
    // https
    assert(starts_with_spec(u2, "https://"@)) by {
        assert(u2.subrange(0, 8) =~= "https://"@);
    }
    assert(u2.skip(8) =~= rest);
    assert(strip_all(u2, "https://"@) == strip_all(rest, "https://"@));
    assert(strip_all(rest, "http://"@) == rest);
    // the host
    lemma_first_pos_after(d, '/', p, 0);
    assert(until_char(rest, '/') =~= d);
    lemma_first_pos_none(d, '?', 0);
    assert(until_char(d, '?') =~= d);
}

/// A listed domain is blocked, and so is every subdomain of it: any name
/// followed by '.' and the listed domain.
pub proof fn law_subdomains_blocked(list: Seq<Seq<char>>, i: int, x: Seq<char>)
    requires
        0 <= i < list.len(),
    ensures
        blocked_by(list, list[i]),
        blocked_by(list, x + seq!['.'] + list[i]),
{
    let d = x + seq!['.'] + list[i];
    let t = seq!['.'] + list[i];
    assert(d =~= x + t);
    assert(d.subrange(d.len() - t.len(), d.len() as int) =~= t);
    assert(ends_with_spec(d, t));
}

/// A query is not part of the host: for a host `d` (no '/', '?' or ':'),
/// `"https://" + d + "?" + q` has host `d` lower-cased.
pub proof fn law_query_is_cut(d: Seq<char>, q: Seq<char>)
    requires
        forall|k: int| 0 <= k < d.len() ==> d[k] != '/' && d[k] != '?' && d[k] != ':',
    ensures
        extract_domain_spec("https://"@ + d + "?"@ + q) == lowercase_spec(d),
{
    reveal_strlit("https://");
    reveal_strlit("http://");
    reveal_strlit("?");
    let rest = d + seq!['?'] + q;
    assert("?"@ =~= seq!['?']);
    let u = "https://"@ + d + "?"@ + q;
    assert(u =~= "https://"@ + rest);
    assert(starts_with_spec(u, "https://"@)) by {
        assert(u.subrange(0, 8) =~= "https://"@);
    }
    assert(u.skip(8) =~= rest);
    assert(strip_all(u, "https://"@) == strip_all(rest, "https://"@));
    if starts_with_spec(rest, "https://"@) {
        if d.len() > 5 {
            assert(rest[5] == d[5]);
            assert(rest.subrange(0, 8)[5] == ':');
        } else {
            assert(rest[d.len() as int] == '?');
            assert(rest.subrange(0, 8)[d.len() as int] != '?');
        }
    }
    if starts_with_spec(rest, "http://"@) {
        if d.len() > 4 {
            assert(rest[4] == d[4]);
            assert(rest.subrange(0, 7)[4] == ':');
        } else {
            assert(rest[d.len() as int] == '?');
            assert(rest.subrange(0, 7)[d.len() as int] != '?');
        }
    }
    assert(strip_all(rest, "https://"@) == rest);
    assert(strip_all(rest, "http://"@) == rest);
    // the first '/' lies past `d + "?"`
    lemma_first_pos_skip(rest, '/', 0, d.len() + 1int);
    assert(rest[d.len() as int] == '?');
    lemma_first_pos_range(rest, '/', d.len() + 1int);
    let k = first_pos(rest, '/', 0);
    let r1 = until_char(rest, '/');
    let q1 = q.take(k - d.len() - 1);
    assert(r1 =~= d + seq!['?'] + q1);
    lemma_first_pos_after(d, '?', q1, 0);
    assert(until_char(r1, '?') =~= d);
}

/// Positions without `c` are passed over.
proof fn lemma_first_pos_skip(s: Seq<char>, c: char, i: int, j: int)
    requires
        0 <= i <= j <= s.len(),
        forall|k: int| i <= k < j ==> s[k] != c,
    ensures
        first_pos(s, c, i) == first_pos(s, c, j),
    decreases j - i,
{
    if i < j {
        lemma_first_pos_skip(s, c, i + 1, j);
    }
}

proof fn lemma_first_pos_range(s: Seq<char>, c: char, i: int)
    requires
        0 <= i <= s.len(),
    ensures
        i <= first_pos(s, c, i) <= s.len(),
    decreases s.len() - i,
{
    if i < s.len() && s[i] != c {
        lemma_first_pos_range(s, c, i + 1);
    }
}

fn strip_leading(s: Vec<char>, p: &[char]) -> (r: Vec<char>)
    requires
        p@.len() > 0,
    ensures
        r@ == strip_all(s@, p@),
{
    let mut cur = s;
    while starts_with(cur.as_slice(), p)
        invariant
            p@.len() > 0,
            strip_all(s@, p@) == strip_all(cur@, p@),
        decreases cur@.len(),
    {
        cur = tail(cur.as_slice(), p.len());
    }
    cur
}

fn cut_at(s: &[char], c: char) -> (r: Vec<char>)
    ensures
        r@ == until_char(s@, c),
{
    let mut out: Vec<char> = Vec::new();
    let mut i: usize = 0;
    while i < s.len() && s[i] != c
        invariant
            i <= s@.len(),
            first_pos(s@, c, 0) == first_pos(s@, c, i as int),
            out@ == s@.take(i as int),
        decreases s@.len() - i,
    {
        out.push(s[i]);
        proof {
            assert(out@ =~= s@.take(i + 1));
        }
        i += 1;
    }
    proof {
        assert(first_pos(s@, c, i as int) == i);
    }
    out
}

fn extract_domain(url: &str) -> (r: Vec<char>)
    ensures
        r@ == extract_domain_spec(url@),
{
    let https = crate::text::lit("https://");
    let http = crate::text::lit("http://");
    proof {
        reveal_strlit("https://");
        reveal_strlit("http://");
    }
    let a = strip_leading(chars_of(url), https.as_slice());
    let b = strip_leading(a, http.as_slice());
    let c = cut_at(b.as_slice(), '/');
    let d = cut_at(c.as_slice(), '?');
    let ds = string_of(d.as_slice());
    let low = to_lowercase(ds.as_str());
    chars_of(low.as_str())
}

/// Known surveillance and tracking domains.
pub struct TrackerBlockList {
    domains: Vec<&'static str>,
}

impl TrackerBlockList {
    /// The listed domains.
    pub closed spec fn domains_view(&self) -> Seq<Seq<char>> {
        Seq::new(self.domains@.len(), |i: int| self.domains@[i]@)
    }

    /// The default block list.
    pub fn new() -> (l: Self)
        ensures
            l.domains_view() == default_trackers(),
    {
        let domains: Vec<&'static str> = vec![
            "graph.facebook.com",
            "pixel.facebook.com",
            "connect.facebook.net",
            "www.facebook.com/tr",
            "an.facebook.com",
            "google-analytics.com",
            "www.google-analytics.com",
            "analytics.google.com",
            "doubleclick.net",
            "adservice.google.com",
            "googletagmanager.com",
            "googletagservices.com",
            "googlesyndication.com",
            "hotjar.com",
            "static.hotjar.com",
            "mixpanel.com",
            "api.mixpanel.com",
            "segment.io",
            "api.segment.io",
            "cdn.segment.com",
            "amplitude.com",
            "api2.amplitude.com",
            "heap.io",
            "heapanalytics.com",
            "fullstory.com",
            "rs.fullstory.com",
            "intercom.io",
            "widget.intercom.io",
            "clarity.ms",
            "www.clarity.ms",
            "adsystem.com",
            "adnxs.com",
            "adsrvr.org",
            "advertising.com",
            "adobedtm.com",
            "scorecardresearch.com",
            "chartbeat.com",
            "chartbeat.net",
            "criteo.com",
            "static.criteo.net",
            "outbrain.com",
            "taboola.com",
            "tpc.googlesyndication.com",
            "fingerprintjs.com",
            "fpjscdn.net",
            "deviceatlas.com",
            "quantserve.com",
            "quantcast.com",
            "bluekai.com",
            "exelator.com",
            "turn.com",
            "rubiconproject.com",
            "openx.net",
            "pubmatic.com",
            "appnexus.com",
            "static.ads-twitter.com",
            "t.co",
            "analytics.twitter.com",
            "analytics.tiktok.com",
            "log.tiktok.com",
            "aax-us-east.amazon-adsystem.com",
            "s.amazon-adsystem.com",
            "bat.bing.com",
            "c.msn.com",
            "sentry.io",
            "browser.sentry-cdn.com"
        ];
        let l = TrackerBlockList { domains };
        assert(l.domains_view() =~= default_trackers());
        l
    }

    fn matches_entry(&self, d: &[char], i: usize) -> (r: bool)
        requires
            i < self.domains_view().len(),
        ensures
            r == (d@ == self.domains_view()[i as int] || ends_with_spec(d@, seq!['.'] + self.domains_view()[i as int])),
    {
        let b = chars_of(self.domains[i]);
        if crate::text::chars_eq(d, b.as_slice()) {
            return true;
        }
        let mut dotted: Vec<char> = Vec::new();
        dotted.push('.');
        let mut k: usize = 0;
        while k < b.len()
            invariant
                k <= b@.len(),
                dotted@ == seq!['.'] + b@.take(k as int),
            decreases b@.len() - k,
        {
            dotted.push(b[k]);
            proof {
                assert(dotted@ =~= seq!['.'] + b@.take(k + 1));
            }
            k += 1;
        }
        assert(b@.take(b@.len() as int) =~= b@);
        ends_with(d, dotted.as_slice())
    }

    /// Whether a domain, trimmed and lower-cased, is listed or is a
    /// subdomain of a listed one.
    pub fn should_block(&self, domain: &str) -> (r: bool)
        ensures
            r == blocked_by(self.domains_view(), lowercase_spec(trim_spec(domain@))),
    {
        let d = trimmed_lowercase(domain);
        let mut i: usize = 0;
        while i < self.domains.len()
            invariant
                d@ == lowercase_spec(trim_spec(domain@)),
                i <= self.domains_view().len(),
                self.domains_view().len() == self.domains@.len(),
                forall|j: int| 0 <= j < i ==> !(d@ == self.domains_view()[j] || ends_with_spec(d@, seq!['.'] + self.domains_view()[j])),
            decreases self.domains@.len() - i,
        {
            if self.matches_entry(d.as_slice(), i) {
                return true;
            }
            i += 1;
        }
        false
    }

    /// Whether the host of a URL is blocked.
    pub fn should_block_url(&self, url: &str) -> (r: bool)
        ensures
            r == blocked_by(self.domains_view(), lowercase_spec(trim_spec(extract_domain_spec(url@)))),
    {
        let d = extract_domain(url);
        let ds = string_of(d.as_slice());
        self.should_block(ds.as_str())
    }

    pub fn block_count(&self) -> (r: usize)
        ensures
            r == self.domains_view().len(),
    {
        self.domains.len()
    }

    /// All blocked domains.
    pub fn blocked_domains(&self) -> (r: &[&'static str])
        ensures
            r@.len() == self.domains_view().len(),
            forall|i: int| 0 <= i < r@.len() ==> r@[i]@ == self.domains_view()[i],
    {
        self.domains.as_slice()
    }
}

} // verus!
