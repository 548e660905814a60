//! The registry of web services that can be opened by name or alias.
use vstd::prelude::*;
use crate::text::{
    chars_of, contains, contains_spec, lit, lowercase_spec, starts_with, starts_with_spec,
    string_of, to_lowercase, trim, trim_spec,
};

verus! {

/// What kind of service an entry is.
#[derive(Debug, Clone, Copy, PartialEq, Eq, Structural)]
pub enum ServiceCategory {
    Social,
    Video,
    Music,
    Email,
    Shopping,
    Maps,
    News,
    Finance,
    Productivity,
    Other,
}

impl ServiceCategory {
    pub fn label(&self) -> (r: &'static str)
        ensures
            r@ == match *self {
                ServiceCategory::Social => "social"@,
                ServiceCategory::Video => "video"@,
                ServiceCategory::Music => "music"@,
                ServiceCategory::Email => "email"@,
                ServiceCategory::Shopping => "shopping"@,
                ServiceCategory::Maps => "maps"@,
                ServiceCategory::News => "news"@,
                ServiceCategory::Finance => "finance"@,
                ServiceCategory::Productivity => "productivity"@,
                ServiceCategory::Other => "other"@,
            },
    {
        match self {
            ServiceCategory::Social => "social",
            ServiceCategory::Video => "video",
            ServiceCategory::Music => "music",
            ServiceCategory::Email => "email",
            ServiceCategory::Shopping => "shopping",
            ServiceCategory::Maps => "maps",
            ServiceCategory::News => "news",
            ServiceCategory::Finance => "finance",
            ServiceCategory::Productivity => "productivity",
            ServiceCategory::Other => "other",
        }
    }
}

/// A known web service.
#[derive(Debug, Clone)]
pub struct ServiceEntry {
    pub name: String,
    pub url: String,
    pub aliases: Vec<String>,
    pub category: ServiceCategory,
    pub requires_auth: bool,
    pub mobile_url: Option<String>,
}

/// A service entry as plain values.
pub struct ServiceView {
    pub name: Seq<char>,
    pub url: Seq<char>,
    pub aliases: Seq<Seq<char>>,
    pub category: ServiceCategory,
    pub requires_auth: bool,
    pub mobile_url: Option<Seq<char>>,
}

pub open spec fn opt_string_view(o: Option<String>) -> Option<Seq<char>> {
    match o {
        Some(s) => Some(s@),
        None => None,
    }
}

impl View for ServiceEntry {
    type V = ServiceView;

    open spec fn view(&self) -> ServiceView {
        ServiceView {
            name: self.name@,
            url: self.url@,
            aliases: Seq::new(self.aliases@.len(), |i: int| self.aliases@[i]@),
            category: self.category,
            requires_auth: self.requires_auth,
            mobile_url: opt_string_view(self.mobile_url),
        }
    }
}

/// `c` names the service directly.
pub open spec fn direct_match(e: ServiceView, c: Seq<char>) -> bool {
    e.name == c
}

/// `c` is one of the service's aliases.
pub open spec fn alias_match(e: ServiceView, c: Seq<char>) -> bool {
    e.aliases.contains(c)
}

/// `c` occurs in the service's name or in one of its aliases.
pub open spec fn partial_match(e: ServiceView, c: Seq<char>) -> bool {
    contains_spec(e.name, c) || exists|k: int| 0 <= k < e.aliases.len() && contains_spec(e.aliases[k], c)
}

pub open spec fn match_kind(e: ServiceView, c: Seq<char>, kind: int) -> bool {
    if kind == 0 {
        direct_match(e, c)
    } else if kind == 1 {
        alias_match(e, c)
    } else {
        partial_match(e, c)
    }
}

/// The first index at or after `i` whose entry matches `c` in the given way.
pub open spec fn first_from(v: Seq<ServiceView>, c: Seq<char>, kind: int, i: int) -> Option<int>
    decreases v.len() - i,
{
    if i < 0 || i >= v.len() {
        None
    } else if match_kind(v[i], c, kind) {
        Some(i)
    } else {
        first_from(v, c, kind, i + 1)
    }
}

/// Which entry a cleaned name resolves to: the first exact name, else the
/// first alias, else the first entry whose name or an alias contains it.
pub open spec fn resolve_index(v: Seq<ServiceView>, c: Seq<char>) -> Option<int> {
    match first_from(v, c, 0, 0) {
        Some(i) => Some(i),
        None => match first_from(v, c, 1, 0) {
            Some(i) => Some(i),
            None => first_from(v, c, 2, 0),
        },
    }
}

/// The prefixes that a spoken request may start with.
pub open spec fn spoken_prefixes() -> Seq<Seq<char>> {
    seq!["open "@, "launch "@, "go to "@, "show "@, "load "@]
}

/// The first spoken prefix at or after position `i` that `s` starts with.
pub open spec fn strip_spoken_from(s: Seq<char>, i: int) -> Seq<char>
    decreases 5 - i,
{
    if i < 0 || i >= 5 {
        s
    } else if starts_with_spec(s, spoken_prefixes()[i]) {
        trim_spec(s.skip(spoken_prefixes()[i].len() as int))
    } else {
        strip_spoken_from(s, i + 1)
    }
}

/// A spoken service name, trimmed, lower-cased and without a leading
/// "open "/"launch "/"go to "/"show "/"load ".
pub open spec fn clean_name_spec(input: Seq<char>) -> Seq<char> {
    strip_spoken_from(lowercase_spec(trim_spec(input)), 0)
}

/// Lower-case of the trimmed text.
pub fn trimmed_lowercase(input: &str) -> (r: Vec<char>)
    ensures
        r@ == lowercase_spec(trim_spec(input@)),
{
    let t = trim(chars_of(input).as_slice());
    let ts = string_of(t.as_slice());
    let low = to_lowercase(ts.as_str());
    chars_of(low.as_str())
}

fn prefix_literal(i: usize) -> (p: Vec<char>)
    requires
        i < 5,
    ensures
        p@ == spoken_prefixes()[i as int],
{
    if i == 0 {
        lit("open ")
    } else if i == 1 {
        lit("launch ")
    } else if i == 2 {
        lit("go to ")
    } else if i == 3 {
        lit("show ")
    } else {
        lit("load ")
    }
}

/// The tail of `s` from `start` on.
pub fn tail(s: &[char], start: usize) -> (r: Vec<char>)
    requires
        start <= s@.len(),
    ensures
        r@ == s@.skip(start as int),
{
    let mut r: Vec<char> = Vec::new();
    let mut k = start;
    while k < s.len()
        invariant
            start <= k <= s@.len(),
            r@ == s@.subrange(start as int, k as int),
        decreases s@.len() - k,
    {
        r.push(s[k]);
        proof {
            assert(r@ =~= s@.subrange(start as int, k + 1));
        }
        k += 1;
    }
    assert(r@ =~= s@.skip(start as int));
    r
}

fn clean_service_name(input: &str) -> (r: Vec<char>)
    ensures
        r@ == clean_name_spec(input@),
{
    let s = trimmed_lowercase(input);
    let mut i: usize = 0;
    while i < 5
        invariant
            i <= 5,
            s@ == lowercase_spec(trim_spec(input@)),
            strip_spoken_from(s@, 0) == strip_spoken_from(s@, i as int),
        decreases 5 - i,
    {
        let p = prefix_literal(i);
        if starts_with(s.as_slice(), p.as_slice()) {
            assert(strip_spoken_from(s@, i as int) == trim_spec(s@.skip(spoken_prefixes()[i as int].len() as int)));
            let rest = tail(s.as_slice(), p.len());
            return trim(rest.as_slice());
        }
        i += 1;
    }
    s
}

/// Maps service names and aliases to their entries, in registration order.
pub struct ServiceRegistry {
    entries: Vec<ServiceEntry>,
}

/// The default services: name, url, aliases, category, login, mobile url.
pub open spec fn default_services() -> Seq<ServiceView> {
    seq![
        ServiceView { name: "instagram"@, url: "https://www.instagram.com"@, aliases: seq!["ig"@, "insta"@], category: ServiceCategory::Social, requires_auth: true, mobile_url: Some("https://www.instagram.com"@) },
        ServiceView { name: "youtube"@, url: "https://www.youtube.com"@, aliases: seq!["yt"@], category: ServiceCategory::Video, requires_auth: false, mobile_url: Some("https://m.youtube.com"@) },
        ServiceView { name: "x"@, url: "https://x.com"@, aliases: seq!["twitter"@, "x.com"@], category: ServiceCategory::Social, requires_auth: true, mobile_url: None },
        ServiceView { name: "gmail"@, url: "https://mail.google.com"@, aliases: seq!["email"@, "mail"@], category: ServiceCategory::Email, requires_auth: true, mobile_url: None },
        ServiceView { name: "spotify"@, url: "https://open.spotify.com"@, aliases: seq!["music"@], category: ServiceCategory::Music, requires_auth: true, mobile_url: None },
        ServiceView { name: "amazon"@, url: "https://www.amazon.com"@, aliases: seq!["shop"@, "shopping"@], category: ServiceCategory::Shopping, requires_auth: false, mobile_url: None },
        ServiceView { name: "maps"@, url: "https://maps.google.com"@, aliases: seq!["google maps"@, "navigation"@, "directions"@], category: ServiceCategory::Maps, requires_auth: false, mobile_url: None },
        ServiceView { name: "reddit"@, url: "https://www.reddit.com"@, aliases: seq![], category: ServiceCategory::Social, requires_auth: false, mobile_url: None },
        ServiceView { name: "whatsapp"@, url: "https://web.whatsapp.com"@, aliases: seq!["wa"@], category: ServiceCategory::Social, requires_auth: true, mobile_url: None },
        ServiceView { name: "netflix"@, url: "https://www.netflix.com"@, aliases: seq![], category: ServiceCategory::Video, requires_auth: true, mobile_url: None },
        ServiceView { name: "tiktok"@, url: "https://www.tiktok.com"@, aliases: seq!["tt"@], category: ServiceCategory::Video, requires_auth: false, mobile_url: None },
        ServiceView { name: "github"@, url: "https://github.com"@, aliases: seq![], category: ServiceCategory::Productivity, requires_auth: false, mobile_url: None },
    ]
}

fn owned(s: &str) -> (r: String)
    ensures
        r@ == s@,
{
    s.to_owned()
}

fn owned_list(a: &[&str]) -> (r: Vec<String>)
    ensures
        r@.len() == a@.len(),
        forall|k: int| 0 <= k < a@.len() ==> r@[k]@ == a@[k]@,
{
    let mut r: Vec<String> = Vec::new();
    let mut i: usize = 0;
    while i < a.len()
        invariant
            i <= a@.len(),
            r@.len() == i,
            forall|k: int| 0 <= k < i ==> r@[k]@ == a@[k]@,
        decreases a@.len() - i,
    {
        r.push(owned(a[i]));
        i += 1;
    }
    r
}

fn entry(
    name: &str,
    url: &str,
    aliases: &[&str],
    category: ServiceCategory,
    requires_auth: bool,
    mobile_url: Option<&str>,
) -> (e: ServiceEntry)
    ensures
        e@.name == name@,
        e@.url == url@,
        e@.aliases.len() == aliases@.len(),
        forall|k: int| 0 <= k < aliases@.len() ==> e@.aliases[k] == aliases@[k]@,
        e@.category == category,
        e@.requires_auth == requires_auth,
        e@.mobile_url == match mobile_url {
            Some(m) => Some(m@),
            None => None,
        },
{
    ServiceEntry {
        name: owned(name),
        url: owned(url),
        aliases: owned_list(aliases),
        category,
        requires_auth,
        mobile_url: match mobile_url {
            Some(m) => Some(owned(m)),
            None => None,
        },
    }
}

impl ServiceRegistry {
    pub closed spec fn services(&self) -> Seq<ServiceView> {
        self.entries@.map_values(|e: ServiceEntry| e@)
    }

    /// The registry of the default services.
    pub fn new() -> (r: Self)
        ensures
            r.services() == default_services(),
    {
        let mut v: Vec<ServiceEntry> = Vec::new();
        v.push(entry("instagram", "https://www.instagram.com", &["ig", "insta"], ServiceCategory::Social, true, Some("https://www.instagram.com")));
        v.push(entry("youtube", "https://www.youtube.com", &["yt"], ServiceCategory::Video, false, Some("https://m.youtube.com")));
        v.push(entry("x", "https://x.com", &["twitter", "x.com"], ServiceCategory::Social, true, None));
        v.push(entry("gmail", "https://mail.google.com", &["email", "mail"], ServiceCategory::Email, true, None));
        v.push(entry("spotify", "https://open.spotify.com", &["music"], ServiceCategory::Music, true, None));
        v.push(entry("amazon", "https://www.amazon.com", &["shop", "shopping"], ServiceCategory::Shopping, false, None));
        v.push(entry("maps", "https://maps.google.com", &["google maps", "navigation", "directions"], ServiceCategory::Maps, false, None));
        v.push(entry("reddit", "https://www.reddit.com", &[], ServiceCategory::Social, false, None));
        v.push(entry("whatsapp", "https://web.whatsapp.com", &["wa"], ServiceCategory::Social, true, None));
        v.push(entry("netflix", "https://www.netflix.com", &[], ServiceCategory::Video, true, None));
        v.push(entry("tiktok", "https://www.tiktok.com", &["tt"], ServiceCategory::Video, false, None));
        v.push(entry("github", "https://github.com", &[], ServiceCategory::Productivity, false, None));
        let r = ServiceRegistry { entries: v };
        let ghost sv = r.services();
        assert(sv.len() == 12);
        assert(sv[0].aliases =~= default_services()[0].aliases);
        assert(sv[1].aliases =~= default_services()[1].aliases);
        assert(sv[2].aliases =~= default_services()[2].aliases);
        assert(sv[3].aliases =~= default_services()[3].aliases);
        assert(sv[4].aliases =~= default_services()[4].aliases);
        assert(sv[5].aliases =~= default_services()[5].aliases);
        assert(sv[6].aliases =~= default_services()[6].aliases);
        assert(sv[7].aliases =~= default_services()[7].aliases);
        assert(sv[8].aliases =~= default_services()[8].aliases);
        assert(sv[9].aliases =~= default_services()[9].aliases);
        assert(sv[10].aliases =~= default_services()[10].aliases);
        assert(sv[11].aliases =~= default_services()[11].aliases);
        assert(sv =~= default_services());
        r
    }
}


fn alias_hit(e: &ServiceEntry, c: &[char]) -> (r: bool)
    ensures
        r == alias_match(e@, c@),
{
    let mut k: usize = 0;
    while k < e.aliases.len()
        invariant
            k <= e.aliases@.len(),
            forall|j: int| 0 <= j < k ==> e@.aliases[j] != c@,
        decreases e.aliases@.len() - k,
    {
        let a = chars_of(e.aliases[k].as_str());
        if crate::text::chars_eq(a.as_slice(), c) {
            assert(e@.aliases[k as int] == c@);
            return true;
        }
        k += 1;
    }
    false
}

fn partial_hit(e: &ServiceEntry, c: &[char]) -> (r: bool)
    ensures
        r == partial_match(e@, c@),
{
    let name = chars_of(e.name.as_str());
    if contains(name.as_slice(), c) {
        return true;
    }
    let mut k: usize = 0;
    while k < e.aliases.len()
        invariant
            k <= e.aliases@.len(),
            forall|j: int| 0 <= j < k ==> !contains_spec(e@.aliases[j], c@),
        decreases e.aliases@.len() - k,
    {
        let a = chars_of(e.aliases[k].as_str());
        if contains(a.as_slice(), c) {
            assert(contains_spec(e@.aliases[k as int], c@));
            return true;
        }
        k += 1;
    }
    false
}

fn kind_hit(e: &ServiceEntry, c: &[char], kind: u8) -> (r: bool)
    ensures
        r == match_kind(e@, c@, kind as int),
{
    if kind == 0 {
        let name = chars_of(e.name.as_str());
        crate::text::chars_eq(name.as_slice(), c)
    } else if kind == 1 {
        alias_hit(e, c)
    } else {
        partial_hit(e, c)
    }
}

/// Everything in `v` from position `i` on that belongs to category `cat`.
pub open spec fn in_category_from(v: Seq<ServiceView>, cat: ServiceCategory, i: int) -> Seq<ServiceView>
    decreases v.len() - i,
{
    if i < 0 || i >= v.len() {
        Seq::empty()
    } else if v[i].category == cat {
        seq![v[i]] + in_category_from(v, cat, i + 1)
    } else {
        in_category_from(v, cat, i + 1)
    }
}

/// `u` with what `in_category_from(v, cat, i)` holds appended.
proof fn lemma_in_category_append(v: Seq<ServiceView>, cat: ServiceCategory, i: int)
    requires
        0 <= i < v.len(),
    ensures
        in_category_from(v, cat, 0) == (if v[i].category == cat { prefix_in_category(v, cat, i).push(v[i]) } else { prefix_in_category(v, cat, i) }) + in_category_from(v, cat, i + 1),
        prefix_in_category(v, cat, i + 1) == (if v[i].category == cat { prefix_in_category(v, cat, i).push(v[i]) } else { prefix_in_category(v, cat, i) }),
    decreases i,
{
    lemma_prefix_split(v, cat, i);
    lemma_prefix_split(v, cat, i + 1);
}

/// The members of category `cat` among the first `i` entries.
pub open spec fn prefix_in_category(v: Seq<ServiceView>, cat: ServiceCategory, i: int) -> Seq<ServiceView>
    decreases i,
{
    if i <= 0 || i > v.len() {
        Seq::empty()
    } else if v[i - 1].category == cat {
        prefix_in_category(v, cat, i - 1).push(v[i - 1])
    } else {
        prefix_in_category(v, cat, i - 1)
    }
}

proof fn lemma_prefix_split(v: Seq<ServiceView>, cat: ServiceCategory, i: int)
    requires
        0 <= i <= v.len(),
    ensures
        in_category_from(v, cat, 0) == prefix_in_category(v, cat, i) + in_category_from(v, cat, i),
    decreases i,
{
    if i == 0 {
        assert(prefix_in_category(v, cat, 0) + in_category_from(v, cat, 0) =~= in_category_from(v, cat, 0));
    } else {
        lemma_prefix_split(v, cat, i - 1);
        let p = prefix_in_category(v, cat, i - 1);
        let rest = in_category_from(v, cat, i);
        if v[i - 1].category == cat {
            assert(p + (seq![v[i - 1]] + rest) =~= p.push(v[i - 1]) + rest);
        }
    }
}

impl ServiceRegistry {
    fn first_index(&self, c: &[char], kind: u8) -> (r: Option<usize>)
        ensures
            match r {
                Some(i) => first_from(self.services(), c@, kind as int, 0) == Some(i as int),
                None => first_from(self.services(), c@, kind as int, 0) is None,
            },
    {
        let ghost v = self.services();
        let mut i: usize = 0;
        while i < self.entries.len()
            invariant
                v == self.services(),
                v.len() == self.entries@.len(),
                i <= v.len(),
                first_from(v, c@, kind as int, 0) == first_from(v, c@, kind as int, i as int),
            decreases v.len() - i,
        {
            if kind_hit(&self.entries[i], c, kind) {
                return Some(i);
            }
            i += 1;
        }
        None
    }

    /// Resolve a spoken name or alias to a service: the first entry with
    /// that name, else the first with that alias, else the first whose name
    /// or an alias contains it.
    pub fn resolve(&self, input: &str) -> (r: Option<&ServiceEntry>)
        ensures
            match resolve_index(self.services(), clean_name_spec(input@)) {
                Some(i) => r is Some && 0 <= i < self.services().len() && r->0@ == self.services()[i],
                None => r is None,
            },
    {
        let c = clean_service_name(input);
        let mut kind: u8 = 0;
        while kind < 3
            invariant
                c@ == clean_name_spec(input@),
                kind <= 3,
                forall|k: int| 0 <= k < kind ==> first_from(self.services(), c@, k, 0) is None,
            decreases 3 - kind,
        {
            match self.first_index(c.as_slice(), kind) {
                Some(i) => {
                    proof {
                        lemma_first_from_found(self.services(), c@, kind as int, 0);
                    }
                    return Some(&self.entries[i]);
                },
                None => {},
            }
            kind += 1;
        }
        None
    }

    /// A typed URL: kept when it has a scheme, given "https://" when it has
    /// a dot, refused otherwise.
    pub fn resolve_url(&self, url: &str) -> (r: Option<String>)
        ensures
            match resolve_url_spec(url@) {
                Some(u) => r is Some && r->0@ == u,
                None => r is None,
            },
    {
        let t = trim(chars_of(url).as_slice());
        if starts_with(t.as_slice(), lit("http://").as_slice()) || starts_with(t.as_slice(), lit("https://").as_slice()) {
            return Some(string_of(t.as_slice()));
        }
        let dot = lit(".");
        if contains(t.as_slice(), dot.as_slice()) {
            let mut full = lit("https://");
            let mut k: usize = 0;
            let ghost head = full@;
            while k < t.len()
                invariant
                    k <= t@.len(),
                    full@ == head + t@.subrange(0, k as int),
                decreases t@.len() - k,
            {
                full.push(t[k]);
                proof {
                    assert(full@ =~= head + t@.subrange(0, k + 1));
                }
                k += 1;
            }
            assert(t@.subrange(0, t@.len() as int) =~= t@);
            return Some(string_of(full.as_slice()));
        }
        None
    }

    pub fn service_count(&self) -> (r: usize)
        ensures
            r == self.services().len(),
    {
        self.entries.len()
    }

    /// The services of a category, in registration order.
    pub fn services_in_category(&self, cat: &ServiceCategory) -> (r: Vec<&ServiceEntry>)
        ensures
            r@.len() == in_category_from(self.services(), *cat, 0).len(),
            forall|k: int| 0 <= k < r@.len() ==> r@[k]@ == in_category_from(self.services(), *cat, 0)[k],
    {
        let ghost v = self.services();
        let mut out: Vec<&ServiceEntry> = Vec::new();
        let mut i: usize = 0;
        while i < self.entries.len()
            invariant
                v == self.services(),
                v.len() == self.entries@.len(),
                i <= v.len(),
                out@.len() == prefix_in_category(v, *cat, i as int).len(),
                forall|k: int| 0 <= k < out@.len() ==> out@[k]@ == prefix_in_category(v, *cat, i as int)[k],
            decreases v.len() - i,
        {
            proof {
                lemma_in_category_append(v, *cat, i as int);
            }
            if self.entries[i].category == *cat {
                out.push(&self.entries[i]);
            }
            i += 1;
        }
        proof {
            lemma_prefix_split(v, *cat, v.len() as int);
            assert(in_category_from(v, *cat, v.len() as int) =~= Seq::<ServiceView>::empty());
            assert(prefix_in_category(v, *cat, v.len() as int) + Seq::<ServiceView>::empty() =~= prefix_in_category(v, *cat, v.len() as int));
        }
        out
    }
}

/// A found index is in range and matches.
proof fn lemma_first_from_found(v: Seq<ServiceView>, c: Seq<char>, kind: int, i: int)
    ensures
        first_from(v, c, kind, i) matches Some(j) ==> i <= j < v.len() && match_kind(v[j], c, kind),
    decreases v.len() - i,
{
    if 0 <= i < v.len() && !match_kind(v[i], c, kind) {
        lemma_first_from_found(v, c, kind, i + 1);
    }
}

/// What a typed URL becomes: itself when it starts with "http://" or
/// "https://", "https://" in front of it when it holds a dot, nothing otherwise.
pub open spec fn resolve_url_spec(url: Seq<char>) -> Option<Seq<char>> {
    let t = trim_spec(url);
    if starts_with_spec(t, "http://"@) || starts_with_spec(t, "https://"@) {
        Some(t)
    } else if contains_spec(t, "."@) {
        Some("https://"@ + t)
    } else {
        None
    }
}

} // verus!
