//! The crawler's decisions: URL normalization, the frontier with its
//! visited set, robots.txt gating and caching, politeness delays, and what
//! a fetched page contributes.
use rand::Rng;
use vstd::hash_set::StringHashSet;
use vstd::hash_map::StringHashMap;
use vstd::prelude::*;
use vstd::std_specs::iter::IteratorSpec;
use vstd::string::StrSliceExecFns;
use vstd::string::StringExecFns;
use std::collections::VecDeque;

verus! {

broadcast use vstd::string::axiom_spec_iter, vstd::string::next_postcondition;

/// The characters of a string, in a vector.
pub fn chars_of(s: &str) -> (r: Vec<char>)
    ensures
        r@ == s@,
{
    let n = s.unicode_len();
    let mut it = s.chars();
    let mut r: Vec<char> = Vec::new();
    loop
        invariant
            r@.len() <= s@.len(),
            s@.len() == n,
            it.remaining() == s@.skip(r@.len() as int),
            r@ == s@.take(r@.len() as int),
        decreases s@.len() - r@.len(),
    {
        match it.next() {
            None => {
                assert(s@.skip(r@.len() as int).len() == 0);
                assert(r@ =~= s@);
                return r;
            },
            Some(c) => {
                assert(s@.skip(r@.len() as int).len() > 0);
                assert(s@.skip(r@.len() as int).drop_first() =~= s@.skip(r@.len() as int + 1));
                r.push(c);
                assert(r@ =~= s@.take(r@.len() as int));
            },
        }
    }
}

/// `needle` occurs in `hay` at position `i`.
pub open spec fn occurs_at(hay: Seq<char>, needle: Seq<char>, i: int) -> bool {
    0 <= i && i + needle.len() <= hay.len() && hay.subrange(i, i + needle.len()) == needle
}

/// `needle` occurs somewhere in `hay`.
pub open spec fn occurs_in(hay: Seq<char>, needle: Seq<char>) -> bool {
    exists|i: int| occurs_at(hay, needle, i)
}

/// Whether `needle` occurs in `hay`.
pub fn contains_text(hay: &str, needle: &str) -> (r: bool)
    ensures
        r == occurs_in(hay@, needle@),
{
    let h = chars_of(hay);
    let n = chars_of(needle);
    if n.len() > h.len() {
        proof {
            assert forall|i: int| !occurs_at(hay@, needle@, i) by {}
        }
        return false;
    }
    let hl = h.len();
    let mut i: usize = 0;
    while i <= h.len() - n.len()
        invariant
            hl == h@.len(),
            h@ == hay@,
            n@ == needle@,
            n@.len() <= h@.len(),
            i <= h@.len() - n@.len() + 1,
            forall|j: int| 0 <= j < i ==> !occurs_at(hay@, needle@, j),
        decreases h@.len() - i,
    {
        let mut k: usize = 0;
        let mut same = true;
        while same && k < n.len()
            invariant
                hl == h@.len(),
                h@ == hay@,
                n@ == needle@,
                i + n@.len() <= h@.len(),
                k <= n@.len(),
                forall|m: int| 0 <= m < k ==> h@[i + m] == n@[m],
                !same ==> k < n@.len() && h@[i + k] != n@[k as int],
            decreases n@.len() - k + (if same { 1int } else { 0 }),
        {
            if h[i + k] == n[k] {
                k = k + 1;
            } else {
                same = false;
            }
        }
        if k == n.len() {
            assert(hay@.subrange(i as int, i + needle@.len()) =~= needle@);
            assert(occurs_at(hay@, needle@, i as int));
            return true;
        }
        assert(hay@.subrange(i as int, i + needle@.len())[k as int] != needle@[k as int]);
        i = i + 1;
    }
    proof {
        assert forall|j: int| !occurs_at(hay@, needle@, j) by {
            if 0 <= j && j + needle@.len() <= hay@.len() {
                assert(j < i);
            }
        }
    }
    false
}

/// The position of the first `c` in `s`, or its length.
pub open spec fn first_index(s: Seq<char>, c: char) -> nat
    decreases s.len(),
{
    if s.len() == 0 {
        0
    } else if s[0] == c {
        0
    } else {
        1 + first_index(s.skip(1), c)
    }
}

/// The position of the first `/` or `?` in `s` at or after `from`, or its
/// length.
pub open spec fn path_start(s: Seq<char>, from: int) -> int
    decreases s.len() - from,
{
    if from >= s.len() {
        s.len() as int
    } else if s[from] == '/' || s[from] == '?' {
        from
    } else {
        path_start(s, from + 1)
    }
}

pub open spec fn http_prefix() -> Seq<char> {
    seq!['h', 't', 't', 'p', ':', '/', '/']
}

pub open spec fn https_prefix() -> Seq<char> {
    seq!['h', 't', 't', 'p', 's', ':', '/', '/']
}

/// The default-port suffix of an authority for the scheme whose prefix
/// has length `p`: ":80" for http, ":443" for https.
pub open spec fn default_port(p: int) -> Seq<char> {
    if p == 7 {
        seq![':', '8', '0']
    } else {
        seq![':', '4', '4', '3']
    }
}

/// The normal form of a URL: the fragment dropped; for http and https the
/// default port dropped and an empty path made `/`.
pub open spec fn normalized(s: Seq<char>) -> Seq<char> {
    let base = s.take(first_index(s, '#') as int);
    let p: int = if base.len() >= 7 && base.take(7) == http_prefix() {
        7
    } else if base.len() >= 8 && base.take(8) == https_prefix() {
        8
    } else {
        0
    };
    if p == 0 {
        base
    } else {
        let e = path_start(base, p);
        let auth = base.subrange(p, e);
        let port = default_port(p);
        let auth2 = if auth.len() >= port.len() && auth.skip(auth.len() - port.len()) == port {
            auth.take(auth.len() - port.len())
        } else {
            auth
        };
        let rest = base.skip(e);
        let rest2 = if rest.len() == 0 || rest[0] == '?' {
            seq!['/'] + rest
        } else {
            rest
        };
        base.take(p) + auth2 + rest2
    }
}

proof fn lemma_first_index_unique(s: Seq<char>, c: char, k: int)
    requires
        0 <= k <= s.len(),
        forall|i: int| 0 <= i < k ==> s[i] != c,
        k < s.len() ==> s[k] == c,
    ensures
        first_index(s, c) == k,
    decreases s.len(),
{
    if s.len() > 0 && s[0] != c {
        lemma_first_index_unique(s.skip(1), c, k - 1);
    }
}

/// Two URLs that differ only in their fragment have one normal form.
pub proof fn lemma_fragment_ignored(base: Seq<char>, f1: Seq<char>, f2: Seq<char>)
    requires
        forall|i: int| 0 <= i < base.len() ==> base[i] != '#',
    ensures
        normalized(base + seq!['#'] + f1) == normalized(base + seq!['#'] + f2),
        normalized(base + seq!['#'] + f1) == normalized(base),
{
    let u1 = base + seq!['#'] + f1;
    let u2 = base + seq!['#'] + f2;
    lemma_first_index_unique(u1, '#', base.len() as int);
    lemma_first_index_unique(u2, '#', base.len() as int);
    lemma_first_index_unique(base, '#', base.len() as int);
    assert(u1.take(base.len() as int) =~= base);
    assert(u2.take(base.len() as int) =~= base);
    assert(base.take(base.len() as int) =~= base);
}

proof fn lemma_path_start_unique(s: Seq<char>, from: int, k: int)
    requires
        0 <= from <= k <= s.len(),
        forall|i: int| from <= i < k ==> s[i] != '/' && s[i] != '?',
        k < s.len() ==> s[k] == '/' || s[k] == '?',
    ensures
        path_start(s, from) == k,
    decreases s.len() - from,
{
    if from < k {
        lemma_path_start_unique(s, from + 1, k);
    }
}

/// Brings a URL to its normal form: the fragment is dropped and, for http
/// and https, a default port is dropped and an empty path becomes `/`.
#[verifier::rlimit(60)]
pub fn normalize_url(url: &str) -> (r: String)
    ensures
        r@ == normalized(url@),
{
    let cs = chars_of(url);
    let n = cs.len();
    let mut f: usize = 0;
    while f < n && cs[f] != '#'
        invariant
            n == cs@.len(),
            f <= n,
            forall|i: int| 0 <= i < f ==> cs@[i] != '#',
        decreases n - f,
    {
        f = f + 1;
    }
    let ghost s = url@;
    let ghost base = s.take(f as int);
    proof {
        lemma_first_index_unique(s, '#', f as int);
    }
    let is_http = f >= 7 && cs[0] == 'h' && cs[1] == 't' && cs[2] == 't' && cs[3] == 'p' && cs[4]
        == ':' && cs[5] == '/' && cs[6] == '/';
    let is_https = f >= 8 && cs[0] == 'h' && cs[1] == 't' && cs[2] == 't' && cs[3] == 'p' && cs[4]
        == 's' && cs[5] == ':' && cs[6] == '/' && cs[7] == '/';
    proof {
        if is_http {
            assert(base.take(7) =~= http_prefix());
        } else if base.len() >= 7 {
            assert(base.take(7) != http_prefix()) by {
                if base.take(7) == http_prefix() {
                    assert(base.take(7)[0] == 'h' && base.take(7)[1] == 't' && base.take(7)[2] == 't');
                    assert(base.take(7)[3] == 'p' && base.take(7)[4] == ':' && base.take(7)[5] == '/');
                    assert(base.take(7)[6] == '/');
                }
            }
        }
        if is_https {
            assert(base.take(8) =~= https_prefix());
        } else if base.len() >= 8 {
            assert(base.take(8) != https_prefix()) by {
                if base.take(8) == https_prefix() {
                    assert(base.take(8)[0] == 'h' && base.take(8)[1] == 't' && base.take(8)[2] == 't');
                    assert(base.take(8)[3] == 'p' && base.take(8)[4] == 's' && base.take(8)[5] == ':');
                    assert(base.take(8)[6] == '/' && base.take(8)[7] == '/');
                }
            }
        }
    }
    let p: usize = if is_http {
        7
    } else if is_https {
        8
    } else {
        0
    };
    if p == 0 {
        return String::from_str(url.substring_char(0, f));
    }
    let mut e: usize = p;
    while e < f && cs[e] != '/' && cs[e] != '?'
        invariant
            n == cs@.len(),
            f <= n,
            p <= e <= f,
            forall|i: int| p <= i < e ==> cs@[i] != '/' && cs@[i] != '?',
        decreases f - e,
    {
        e = e + 1;
    }
    proof {
        lemma_path_start_unique(base, p as int, e as int);
    }
    let ghost auth = base.subrange(p as int, e as int);
    let ghost port = default_port(p as int);
    let ae: usize = if p == 7 && e - p >= 3 && cs[e - 3] == ':' && cs[e - 2] == '8' && cs[e - 1] == '0' {
        e - 3
    } else if p == 8 && e - p >= 4 && cs[e - 4] == ':' && cs[e - 3] == '4' && cs[e - 2] == '4' && cs[e
        - 1] == '3' {
        e - 4
    } else {
        e
    };
    proof {
        if ae < e {
            assert(auth.skip(auth.len() - port.len()) =~= port);
        } else if auth.len() >= port.len() {
            assert(auth.skip(auth.len() - port.len()) != port) by {
                let t = auth.skip(auth.len() - port.len());
                if t == port {
                    assert(t[0] == port[0] && t[1] == port[1] && t[2] == port[2]);
                    if p == 8 {
                        assert(t[3] == port[3]);
                    }
                }
            }
        }
    }
    let slash = e == f || cs[e] == '?';
    let mut r = String::from_str(url.substring_char(0, ae));
    if slash {
        r.append("/");
    }
    r.append(url.substring_char(e, f));
    proof {
        reveal_strlit("/");
        let auth2 = if auth.len() >= port.len() && auth.skip(auth.len() - port.len()) == port {
            auth.take(auth.len() - port.len())
        } else {
            auth
        };
        let rest = base.skip(e as int);
        assert(base.take(p as int) + auth2 =~= s.subrange(0, ae as int));
        assert(rest =~= s.subrange(e as int, f as int));
        if slash {
            assert(r@ =~= base.take(p as int) + auth2 + (seq!['/'] + rest));
        } else {
            assert(r@ =~= base.take(p as int) + auth2 + rest);
        }
    }
    r
}

/// Relies on `rand::Rng::gen_range` over the thread-local generator: a
/// uniform draw from `0..=400`.
#[verifier::external_body]
fn draw_jitter() -> (r: u64)
    ensures
        r <= 400,
{
    rand::thread_rng().gen_range(0..=400u64)
}

/// The delay for a base delay and a jitter draw in permille above 800:
/// `base * (800 + draw) / 1000`, within 80% and 120% of the base (capped at
/// `u64::MAX`).
pub fn jittered_delay(base_ms: u64, draw: u64) -> (r: u64)
    requires
        draw <= 400,
    ensures
        r == (if (base_ms as int * (800 + draw as int)) / 1000 > u64::MAX {
            u64::MAX as int
        } else {
            (base_ms as int * (800 + draw as int)) / 1000
        }),
        r as int * 1000 <= base_ms as int * 1200,
        base_ms <= u64::MAX / 2 ==> r as int * 1000 + 1000 > base_ms as int * 800,
{
    proof {
        assert(base_ms as int * (800 + draw as int) <= u64::MAX as int * 1200) by (nonlinear_arith)
            requires
                base_ms <= u64::MAX,
                draw <= 400,
        ;
        assert(base_ms as int * (800 + draw as int) >= base_ms as int * 800) by (nonlinear_arith);
        assert(base_ms as int * (800 + draw as int) <= base_ms as int * 1200) by (nonlinear_arith)
            requires
                draw <= 400,
        ;
    }
    let wide: u128 = (base_ms as u128) * ((800 + draw) as u128);
    let q = wide / 1000;
    if q > u64::MAX as u128 {
        u64::MAX
    } else {
        q as u64
    }
}

/// A politeness delay for one request to a host: the base delay scaled by
/// a random factor in [0.8, 1.2] (in permille steps).
pub fn rate_limit_delay(base_ms: u64) -> (r: u64)
    ensures
        r as int * 1000 <= base_ms as int * 1200,
        base_ms <= u64::MAX / 2 ==> r as int * 1000 + 1000 > base_ms as int * 800,
{
    let draw = draw_jitter();
    jittered_delay(base_ms, draw)
}

/// A host and path of a URL, as the `url` crate parses them.
pub uninterp spec fn host_path_of(s: Seq<char>) -> Option<(Seq<char>, Seq<char>)>;

/// The host of a URL (empty when it has none).
pub open spec fn host_part(u: Seq<char>) -> Seq<char> {
    match host_path_of(u) {
        Some(hp) => hp.0,
        None => Seq::empty(),
    }
}

/// A link target resolved against a base URL and serialized, as the `url`
/// crate does it.
pub uninterp spec fn joined_of(base: Seq<char>, href: Seq<char>) -> Option<Seq<char>>;

/// Whether a robots.txt lets `agent` fetch `path`.
pub uninterp spec fn robots_verdict(robots: Seq<char>, agent: Seq<char>, path: Seq<char>) -> bool;

/// Relies on `url::Url::parse`, then `host_str` and `path`: the host and
/// path of a URL with a host.
#[verifier::external_body]
fn url_host_path(s: &str) -> (r: Option<(String, String)>)
    ensures
        match r {
            Some(hp) => host_path_of(s@) == Some((hp.0@, hp.1@)),
            None => host_path_of(s@) is None,
        },
{
    let u = url::Url::parse(s).ok()?;
    let host = u.host_str()?.to_string();
    Some((host, u.path().to_string()))
}

/// A URL as the `url` crate parses and serializes it.
pub uninterp spec fn canonical_of(s: Seq<char>) -> Option<Seq<char>>;

/// Relies on `url::Url::parse` and its serialization.
#[verifier::external_body]
fn url_canonical(s: &str) -> (r: Option<String>)
    ensures
        match r {
            Some(u) => canonical_of(s@) == Some(u@),
            None => canonical_of(s@) is None,
        },
{
    url::Url::parse(s).ok().map(|u| u.to_string())
}

/// The queue entry of a seed: its serialization in normal form at depth 0;
/// none for a seed that does not parse.
pub open spec fn seed_entry(s: Seq<char>) -> Option<(Seq<char>, u32)> {
    match canonical_of(s) {
        Some(c) => Some((normalized(c), 0u32)),
        None => None,
    }
}

/// The queue entries of the seeds, in order.
pub open spec fn seed_entries(seeds: Seq<String>) -> Seq<(Seq<char>, u32)>
    decreases seeds.len(),
{
    if seeds.len() == 0 {
        Seq::empty()
    } else {
        match seed_entry(seeds.last()@) {
            Some(e) => seed_entries(seeds.drop_last()).push(e),
            None => seed_entries(seeds.drop_last()),
        }
    }
}

/// Relies on `url::Url::join`: `href` resolved against `base`, serialized.
#[verifier::external_body]
fn url_join(base: &str, href: &str) -> (r: Option<String>)
    ensures
        match r {
            Some(u) => joined_of(base@, href@) == Some(u@),
            None => joined_of(base@, href@) is None,
        },
{
    let b = url::Url::parse(base).ok()?;
    b.join(href).ok().map(|u| u.to_string())
}

/// A robots.txt that shuts every agent out of every path: the lines
/// `User-agent: *` and `Disallow: /`, with or without a final line break,
/// with `\n` or `\r\n` line ends.
pub open spec fn is_disallow_all_robots(s: Seq<char>) -> bool {
    ||| s == "User-agent: *\nDisallow: /\n"@
    ||| s == "User-agent: *\nDisallow: /"@
    ||| s == "User-agent: *\r\nDisallow: /\r\n"@
    ||| s == "User-agent: *\r\nDisallow: /"@
}

/// Every character is ASCII.
pub open spec fn is_ascii_text(s: Seq<char>) -> bool {
    forall|i: int| 0 <= i < s.len() ==> #[trigger] s[i] < '\u{80}'
}

/// Relies on `robots_txt::Robots::from_str_lossy`, `choose_section` and
/// `SimpleMatcher::check_path`: the verdict of the section for `agent` on
/// `path`. A file without rules allows everything; one whose `*` group is
/// `Disallow: /` refuses every path (a global rule). Both slice the agent
/// and the path at byte offsets, hence ASCII text only.
#[verifier::external_body]
fn robots_allows(robots: &str, agent: &str, path: &str) -> (r: bool)
    requires
        is_ascii_text(agent@),
        is_ascii_text(path@),
    ensures
        r == robots_verdict(robots@, agent@, path@),
        robots@.len() == 0 ==> r,
        is_disallow_all_robots(robots@) ==> !r,
{
    let parsed = robots_txt::Robots::from_str_lossy(robots);
    robots_txt::matcher::SimpleMatcher::new(&parsed.choose_section(agent).rules).check_path(path)
}

pub open spec fn html_marker() -> Seq<char> {
    seq!['t', 'e', 'x', 't', '/', 'h', 't', 'm', 'l']
}

pub open spec fn noindex_marker() -> Seq<char> {
    seq!['n', 'o', 'i', 'n', 'd', 'e', 'x']
}

pub open spec fn nofollow_marker() -> Seq<char> {
    seq!['n', 'o', 'f', 'o', 'l', 'l', 'o', 'w']
}

/// A document the crawler hands to the index.
pub struct CrawledDocument {
    pub url: String,
    pub title: String,
    pub text: String,
}

/// A URL taken off the frontier, with its host and path.
pub struct Job {
    pub url: String,
    pub depth: u32,
    pub host: String,
    pub path: String,
}

/// A job that robots.txt allows; only `clear_job` makes one.
pub struct ClearedJob {
    job: Job,
}

impl ClearedJob {
    pub closed spec fn view_job(&self) -> Job {
        self.job
    }

    pub fn job(&self) -> (r: &Job)
        ensures
            *r == self.view_job(),
    {
        &self.job
    }
}

/// An outgoing link of a page: its `href` and its `rel` attribute.
pub struct Link {
    pub href: String,
    pub rel: Option<String>,
}

/// What fetching and parsing a page gave.
pub struct FetchedPage {
    pub status: u16,
    pub content_type: String,
    pub title: Option<String>,
    pub text: String,
    /// The `content` of its robots / googlebot meta tags.
    pub robots_meta: Vec<String>,
    pub links: Vec<Link>,
}

/// The crawl frontier: the FIFO of `(url, depth)`, the visited set, the
/// domain filter and the crawl settings.
pub struct CrawlFrontier {
    queue: VecDeque<(String, u32)>,
    visited: StringHashSet,
    allowed_domains: Option<StringHashSet>,
    max_pages: usize,
    max_depth: u32,
    respect_noindex: bool,
    respect_nofollow: bool,
    crawl_delay: u64,
    crawled: usize,
}

/// The view of a queue entry.
pub open spec fn entry_view(e: (String, u32)) -> (Seq<char>, u32) {
    (e.0@, e.1)
}

/// The target a link contributes to the frontier, if any: not a skipped
/// `nofollow` link, resolvable, and not yet visited once normalized.
pub open spec fn link_target(
    base: Seq<char>,
    link: Link,
    nofollow: bool,
    visited: Set<Seq<char>>,
) -> Option<Seq<char>> {
    if nofollow && link.rel is Some && occurs_in(link.rel->0@, nofollow_marker()) {
        None
    } else {
        match joined_of(base, link.href@) {
            None => None,
            Some(u) => if visited.contains(normalized(u)) {
                None
            } else {
                Some(normalized(u))
            },
        }
    }
}

/// The targets of a page's links, in order, each at `depth`.
pub open spec fn link_targets(
    base: Seq<char>,
    links: Seq<Link>,
    nofollow: bool,
    visited: Set<Seq<char>>,
    depth: u32,
) -> Seq<(Seq<char>, u32)>
    decreases links.len(),
{
    if links.len() == 0 {
        Seq::empty()
    } else {
        let prev = link_targets(base, links.drop_last(), nofollow, visited, depth);
        match link_target(base, links.last(), nofollow, visited) {
            Some(t) => prev.push((t, depth)),
            None => prev,
        }
    }
}

impl CrawlFrontier {
    pub closed spec fn queue_view(&self) -> Seq<(Seq<char>, u32)> {
        self.queue@.map_values(|e: (String, u32)| entry_view(e))
    }

    pub closed spec fn visited_view(&self) -> Set<Seq<char>> {
        self.visited@
    }

    pub closed spec fn allowed_view(&self) -> Option<Set<Seq<char>>> {
        match self.allowed_domains {
            Some(a) => Some(a@),
            None => None,
        }
    }

    pub closed spec fn crawled_view(&self) -> nat {
        self.crawled as nat
    }

    pub closed spec fn max_pages_view(&self) -> nat {
        self.max_pages as nat
    }

    pub closed spec fn max_depth_view(&self) -> u32 {
        self.max_depth
    }

    pub closed spec fn noindex_view(&self) -> bool {
        self.respect_noindex
    }

    pub closed spec fn nofollow_view(&self) -> bool {
        self.respect_nofollow
    }

    pub closed spec fn delay_view(&self) -> u64 {
        self.crawl_delay
    }

    /// A queued URL that `next_job` passes over: already visited, without a
    /// host, or outside the allowed domains.
    pub open spec fn passes_over(&self, u: Seq<char>) -> bool {
        ||| self.visited_view().contains(u)
        ||| host_path_of(u) is None
        ||| (self.allowed_view() is Some && !self.allowed_view()->0.contains(host_part(u)))
    }

    /// A frontier holding the seeds, each parsed, serialized and brought
    /// to normal form, at depth 0 (a seed that does not parse is dropped);
    /// nothing visited, no domain filter, and the default settings: 10000
    /// pages, depth 3, noindex and nofollow honoured, 500 ms between
    /// requests to a host.
    pub fn new(seed_urls: Vec<String>) -> (r: Self)
        ensures
            r.queue_view() == seed_entries(seed_urls@),
            r.visited_view() == Set::<Seq<char>>::empty(),
            r.allowed_view() is None,
            r.crawled_view() == 0,
            r.max_pages_view() == 10000,
            r.max_depth_view() == 3,
            r.noindex_view(),
            r.nofollow_view(),
            r.delay_view() == 500,
    {
        let mut f = CrawlFrontier {
            queue: VecDeque::new(),
            visited: StringHashSet::new(),
            allowed_domains: None,
            max_pages: 10000,
            max_depth: 3,
            respect_noindex: true,
            respect_nofollow: true,
            crawl_delay: 500,
            crawled: 0,
        };
        let ghost seeds = seed_urls@;
        assert(f.queue_view() =~= seed_entries(seeds.take(0)));
        let mut i: usize = 0;
        while i < seed_urls.len()
            invariant
                i <= seed_urls@.len(),
                seed_urls@ == seeds,
                f.queue_view() == seed_entries(seeds.take(i as int)),
                f.visited_view() == Set::<Seq<char>>::empty(),
                f.allowed_view() is None,
                f.crawled_view() == 0,
                f.max_pages_view() == 10000,
                f.max_depth_view() == 3,
                f.noindex_view(),
                f.nofollow_view(),
                f.delay_view() == 500,
            decreases seed_urls@.len() - i,
        {
            assert(seeds.take(i as int + 1).drop_last() =~= seeds.take(i as int));
            assert(seeds.take(i as int + 1).last() == seeds[i as int]);
            f.add_seed(seed_urls[i].clone());
            i = i + 1;
        }
        assert(seeds.take(seeds.len() as int) =~= seeds);
        f
    }

    /// Sets the crawl limits and politeness switches.
    pub fn configure(
        &mut self,
        max_pages: usize,
        max_depth: u32,
        respect_noindex: bool,
        respect_nofollow: bool,
        crawl_delay: u64,
    )
        ensures
            final(self).max_pages_view() == max_pages,
            final(self).max_depth_view() == max_depth,
            final(self).noindex_view() == respect_noindex,
            final(self).nofollow_view() == respect_nofollow,
            final(self).delay_view() == crawl_delay,
            final(self).queue_view() == old(self).queue_view(),
            final(self).visited_view() == old(self).visited_view(),
            final(self).allowed_view() == old(self).allowed_view(),
            final(self).crawled_view() == old(self).crawled_view(),
    {
        self.max_pages = max_pages;
        self.max_depth = max_depth;
        self.respect_noindex = respect_noindex;
        self.respect_nofollow = respect_nofollow;
        self.crawl_delay = crawl_delay;
    }

    /// Restricts the crawl to the given hosts.
    pub fn set_allowed_domains(&mut self, domains: Vec<String>)
        ensures
            final(self).allowed_view() == Some(domains@.map_values(|d: String| d@).to_set()),
            final(self).queue_view() == old(self).queue_view(),
            final(self).visited_view() == old(self).visited_view(),
            final(self).crawled_view() == old(self).crawled_view(),
            final(self).max_pages_view() == old(self).max_pages_view(),
            final(self).max_depth_view() == old(self).max_depth_view(),
            final(self).noindex_view() == old(self).noindex_view(),
            final(self).nofollow_view() == old(self).nofollow_view(),
            final(self).delay_view() == old(self).delay_view(),
    {
        let mut set = StringHashSet::new();
        let mut i: usize = 0;
        let ghost ds = domains@.map_values(|d: String| d@);
        while i < domains.len()
            invariant
                i <= domains@.len(),
                ds == domains@.map_values(|d: String| d@),
                set@ == ds.take(i as int).to_set(),
            decreases domains@.len() - i,
        {
            set.insert(domains[i].clone());
            i = i + 1;
            assert(ds.take(i as int) =~= ds.take(i - 1).push(ds[i - 1]));
            assert(set@ =~= ds.take(i as int).to_set()) by {
                vstd::seq_lib::lemma_seq_contains_after_push(ds.take(i - 1), ds[i - 1], ds[i - 1]);
                assert forall|x: Seq<char>| set@.contains(x) <==> ds.take(i as int).to_set().contains(x) by {
                    vstd::seq_lib::lemma_seq_contains_after_push(ds.take(i - 1), ds[i - 1], x);
                }
            }
        }
        assert(ds.take(ds.len() as int) =~= ds);
        self.allowed_domains = Some(set);
    }

    /// The number of documents emitted so far.
    pub fn crawled_count(&self) -> (r: usize)
        ensures
            r == self.crawled_view(),
    {
        self.crawled
    }

    /// The base politeness delay, in milliseconds.
    pub fn crawl_delay(&self) -> (r: u64)
        ensures
            r == self.delay_view(),
    {
        self.crawl_delay
    }

    /// The crawl is over once the page budget is spent.
    pub fn should_stop(&self) -> (r: bool)
        ensures
            r == (self.crawled_view() >= self.max_pages_view()),
    {
        self.crawled >= self.max_pages
    }

    /// Takes the next URL to fetch off the front of the queue: entries it
    /// passes over (visited, without a host, outside the allowed domains)
    /// are dropped; the URL taken is marked visited before it is returned.
    /// `None` when the queue runs out.
    pub fn next_job(&mut self) -> (r: Option<Job>)
        ensures
            final(self).allowed_view() == old(self).allowed_view(),
            final(self).crawled_view() == old(self).crawled_view(),
            final(self).max_pages_view() == old(self).max_pages_view(),
            final(self).max_depth_view() == old(self).max_depth_view(),
            final(self).noindex_view() == old(self).noindex_view(),
            final(self).nofollow_view() == old(self).nofollow_view(),
            final(self).delay_view() == old(self).delay_view(),
            match r {
                None => {
                    &&& final(self).queue_view().len() == 0
                    &&& final(self).visited_view() == old(self).visited_view()
                    &&& forall|k: int| 0 <= k < old(self).queue_view().len() ==> old(self).passes_over(
                        (#[trigger] old(self).queue_view()[k]).0,
                    )
                },
                Some(j) => exists|m: int| {
                    &&& 0 < m <= old(self).queue_view().len()
                    &&& final(self).queue_view() == old(self).queue_view().skip(m)
                    &&& old(self).queue_view()[m - 1] == (j.url@, j.depth)
                    &&& forall|k: int| 0 <= k < m - 1 ==> old(self).passes_over(
                        (#[trigger] old(self).queue_view()[k]).0,
                    )
                    &&& !old(self).passes_over(j.url@)
                    &&& host_path_of(j.url@) == Some((j.host@, j.path@))
                    &&& final(self).visited_view() == old(self).visited_view().insert(j.url@)
                },
            },
    {
        let ghost q0 = old(self).queue_view();
        let ghost m: int = 0;
        loop
            invariant
                self.visited_view() == old(self).visited_view(),
                self.allowed_view() == old(self).allowed_view(),
                self.crawled == old(self).crawled,
                self.max_pages == old(self).max_pages,
                self.max_depth == old(self).max_depth,
                self.respect_noindex == old(self).respect_noindex,
                self.respect_nofollow == old(self).respect_nofollow,
                self.crawl_delay == old(self).crawl_delay,
                q0 == old(self).queue_view(),
                0 <= m <= q0.len(),
                self.queue_view() == q0.skip(m),
                forall|k: int| 0 <= k < m ==> old(self).passes_over((#[trigger] q0[k]).0),
            decreases q0.len() - m,
        {
            let ghost before = self.queue@;
            let ghost bv = self.queue_view();
            match self.queue.pop_front() {
                None => {
                    proof {
                        assert(q0.skip(m).len() == 0);
                    }
                    return None;
                },
                Some(entry) => {
                    proof {
                        assert(bv.len() == before.len());
                        assert(m < q0.len());
                        assert(bv[0] == entry_view(before[0]));
                        assert(q0.skip(m)[0] == entry_view(entry));
                        assert(self.queue@ =~= before.subrange(1, before.len() as int));
                        assert forall|k: int| 0 <= k < self.queue_view().len() implies self.queue_view()[k]
                            == q0.skip(m + 1)[k] by {
                            assert(self.queue_view()[k] == entry_view(self.queue@[k]));
                            assert(self.queue@[k] == before[k + 1]);
                            assert(bv[k + 1] == entry_view(before[k + 1]));
                            assert(q0.skip(m)[k + 1] == q0.skip(m + 1)[k]);
                        }
                        assert(self.queue_view().len() == q0.skip(m + 1).len());
                        assert(self.queue_view() =~= q0.skip(m + 1));
                        m = m + 1;
                    }
                    let (url, depth) = entry;
                    if self.visited.contains(url.as_str()) {
                        continue;
                    }
                    match url_host_path(url.as_str()) {
                        None => {
                            continue;
                        },
                        Some(hp) => {
                            let (host, path) = hp;
                            let allowed = match &self.allowed_domains {
                                Some(a) => a.contains(host.as_str()),
                                None => true,
                            };
                            if !allowed {
                                continue;
                            }
                            let ghost u = url@;
                            self.visited.insert(url.clone());
                            return Some(Job { url, depth, host, path });
                        },
                    }
                },
            }
        }
    }

    /// Lets a job through when robots.txt allows its path for `agent`;
    /// `robots` is the host's robots.txt, `None` when it could not be had,
    /// which allows everything, as an empty file does; a file of
    /// `User-agent: *` and `Disallow: /` lets nothing through. URL paths are
    /// percent-encoded, hence ASCII.
    pub fn clear_job(&self, job: Job, robots: Option<&str>, agent: &str) -> (r: Option<ClearedJob>)
        requires
            is_ascii_text(agent@),
            is_ascii_text(job.path@),
        ensures
            r is Some <==> match robots {
                Some(t) => robots_verdict(t@, agent@, job.path@),
                None => true,
            },
            robots matches Some(t) && t@.len() == 0 ==> r is Some,
            robots matches Some(t) && is_disallow_all_robots(t@) ==> r is None,
            r matches Some(c) ==> c.view_job() == job,
    {
        let allowed = match robots {
            Some(t) => robots_allows(t, agent, job.path.as_str()),
            None => true,
        };
        if allowed {
            Some(ClearedJob { job })
        } else {
            None
        }
    }

    /// Whether a fetched page is indexed: a 2xx status, an HTML content
    /// type, and no noindex directive when those are honoured.
    pub open spec fn accepts(&self, page: FetchedPage) -> bool {
        &&& 200 <= page.status < 300
        &&& occurs_in(page.content_type@, html_marker())
        &&& !(self.noindex_view() && exists|i: int| 0 <= i < page.robots_meta@.len()
            && occurs_in(#[trigger] page.robots_meta@[i]@, noindex_marker()))
    }

    /// Takes in a fetched page of a cleared job. A page that is not 2xx,
    /// not HTML, or noindex (when honoured) is skipped and nothing changes.
    /// Otherwise the document is emitted (titled by the URL when the page
    /// has no title) and counted, and, below the depth limit, the page's
    /// link targets join the back of the queue one level deeper.
    pub fn record_page(&mut self, cleared: ClearedJob, page: FetchedPage) -> (r: Option<CrawledDocument>)
        ensures
            final(self).visited_view() == old(self).visited_view(),
            final(self).allowed_view() == old(self).allowed_view(),
            final(self).max_pages_view() == old(self).max_pages_view(),
            final(self).max_depth_view() == old(self).max_depth_view(),
            final(self).noindex_view() == old(self).noindex_view(),
            final(self).nofollow_view() == old(self).nofollow_view(),
            final(self).delay_view() == old(self).delay_view(),
            r is Some <==> old(self).accepts(page),
            r is None ==> final(self).queue_view() == old(self).queue_view()
                && final(self).crawled_view() == old(self).crawled_view(),
            r matches Some(d) ==> {
                let j = cleared.view_job();
                &&& d.url == j.url
                &&& d.text == page.text
                &&& d.title@ == (match page.title {
                    Some(t) => t@,
                    None => j.url@,
                })
                &&& old(self).crawled_view() < usize::MAX ==> final(self).crawled_view() == old(self).crawled_view() + 1
                &&& final(self).queue_view() == (if j.depth < old(self).max_depth_view() {
                    old(self).queue_view() + link_targets(
                        j.url@,
                        page.links@,
                        old(self).nofollow_view(),
                        old(self).visited_view(),
                        (j.depth + 1) as u32,
                    )
                } else {
                    old(self).queue_view()
                })
            },
    {
        if page.status < 200 || page.status >= 300 {
            return None;
        }
        if !contains_text(page.content_type.as_str(), "text/html") {
            proof {
                reveal_strlit("text/html");
                assert("text/html"@ =~= html_marker());
            }
            return None;
        }
        proof {
            reveal_strlit("text/html");
            assert("text/html"@ =~= html_marker());
            reveal_strlit("noindex");
            assert("noindex"@ =~= noindex_marker());
            reveal_strlit("nofollow");
            assert("nofollow"@ =~= nofollow_marker());
        }
        if self.respect_noindex {
            let mut i: usize = 0;
            while i < page.robots_meta.len()
                invariant
                    i <= page.robots_meta@.len(),
                    "noindex"@ == noindex_marker(),
                    self.respect_noindex,
                    old(self).noindex_view(),
                    200 <= page.status < 300,
                    forall|k: int| 0 <= k < i ==> !occurs_in(#[trigger] page.robots_meta@[k]@, noindex_marker()),
                decreases page.robots_meta@.len() - i,
            {
                if contains_text(page.robots_meta[i].as_str(), "noindex") {
                    assert(occurs_in(page.robots_meta@[i as int]@, noindex_marker()));
                    assert(!old(self).accepts(page));
                    return None;
                }
                i = i + 1;
            }
        }
        let job = cleared.job;
        let ghost q0 = self.queue_view();
        if job.depth < self.max_depth {
            let next_depth = job.depth + 1;
            let mut i: usize = 0;
            while i < page.links.len()
                invariant
                    i <= page.links@.len(),
                    next_depth == job.depth + 1,
                    "nofollow"@ == nofollow_marker(),
                    self.visited_view() == old(self).visited_view(),
                    self.allowed_view() == old(self).allowed_view(),
                    self.crawled == old(self).crawled,
                    self.max_pages == old(self).max_pages,
                    self.max_depth == old(self).max_depth,
                    self.respect_noindex == old(self).respect_noindex,
                    self.respect_nofollow == old(self).respect_nofollow,
                    self.crawl_delay == old(self).crawl_delay,
                    q0 == old(self).queue_view(),
                    self.queue_view() == q0 + link_targets(
                        job.url@,
                        page.links@.take(i as int),
                        self.respect_nofollow,
                        self.visited_view(),
                        next_depth,
                    ),
                decreases page.links@.len() - i,
            {
                let link = &page.links[i];
                proof {
                    assert(page.links@.take(i as int + 1).drop_last() =~= page.links@.take(i as int));
                    assert(page.links@.take(i as int + 1).last() == page.links@[i as int]);
                }
                let skip = self.respect_nofollow && match &link.rel {
                    Some(rel) => contains_text(rel.as_str(), "nofollow"),
                    None => false,
                };
                if !skip {
                    match url_join(job.url.as_str(), link.href.as_str()) {
                        Some(u) => {
                            let normal = normalize_url(u.as_str());
                            if !self.visited.contains(normal.as_str()) {
                                let ghost before = self.queue_view();
                                self.queue.push_back((normal, next_depth));
                                proof {
                                    assert(self.queue_view() =~= before.push((normal@, next_depth)));
                                }
                            }
                        },
                        None => {},
                    }
                }
                i = i + 1;
            }
            proof {
                assert(page.links@.take(page.links@.len() as int) =~= page.links@);
            }
        }
        let title = match page.title {
            Some(t) => t,
            None => job.url.clone(),
        };
        if self.crawled < usize::MAX {
            self.crawled = self.crawled + 1;
        }
        Some(CrawledDocument { url: job.url, title, text: page.text })
    }

    /// Queues a seed URL at depth 0 behind what is queued, parsed,
    /// serialized and in normal form; a seed that does not parse is dropped.
    pub fn add_seed(&mut self, url: String)
        ensures
            final(self).queue_view() == (match seed_entry(url@) {
                Some(e) => old(self).queue_view().push(e),
                None => old(self).queue_view(),
            }),
            final(self).visited_view() == old(self).visited_view(),
            final(self).allowed_view() == old(self).allowed_view(),
            final(self).crawled_view() == old(self).crawled_view(),
            final(self).max_pages_view() == old(self).max_pages_view(),
            final(self).max_depth_view() == old(self).max_depth_view(),
            final(self).noindex_view() == old(self).noindex_view(),
            final(self).nofollow_view() == old(self).nofollow_view(),
            final(self).delay_view() == old(self).delay_view(),
    {
        if let Some(c) = url_canonical(url.as_str()) {
            let normal = normalize_url(c.as_str());
            let ghost u = normal@;
            self.queue.push_back((normal, 0));
            assert(self.queue_view() =~= old(self).queue_view().push((u, 0u32)));
        }
    }

    /// Whether the frontier is empty.
    pub fn is_idle(&self) -> (r: bool)
        ensures
            r == (self.queue_view().len() == 0),
    {
        self.queue.len() == 0
    }
}

/// Once the normal form of a URL is visited, the normal form of every URL
/// that differs from it only in its fragment is passed over when it comes
/// off the queue.
pub proof fn lemma_fragment_visited_once(
    frontier: CrawlFrontier,
    base: Seq<char>,
    f1: Seq<char>,
    f2: Seq<char>,
)
    requires
        forall|i: int| 0 <= i < base.len() ==> base[i] != '#',
        frontier.visited_view().contains(normalized(base + seq!['#'] + f1)),
    ensures
        frontier.passes_over(normalized(base + seq!['#'] + f2)),
        frontier.passes_over(normalized(base)),
{
    lemma_fragment_ignored(base, f1, f2);
}

/// How long a fetched robots.txt stays valid, in seconds.
pub const ROBOTS_TTL_SECS: u64 = 86400;

/// A cached robots.txt is fresh when fetched less than a day before `now`.
pub open spec fn is_fresh(fetched_at: u64, now: u64) -> bool {
    fetched_at <= now && now - fetched_at < ROBOTS_TTL_SECS
}

/// Per-host robots.txt texts with the time each was fetched.
pub struct RobotsCache {
    entries: StringHashMap<(String, u64)>,
}

impl RobotsCache {
    pub closed spec fn view_map(&self) -> Map<Seq<char>, (Seq<char>, u64)> {
        self.entries@.map_values(|e: (String, u64)| (e.0@, e.1))
    }

    pub fn new() -> (r: Self)
        ensures
            r.view_map() == Map::<Seq<char>, (Seq<char>, u64)>::empty(),
    {
        let r = RobotsCache { entries: StringHashMap::new() };
        assert(r.view_map() =~= Map::<Seq<char>, (Seq<char>, u64)>::empty());
        r
    }

    /// The cached robots.txt of `host` if it is still fresh at `now`.
    pub fn lookup(&self, host: &str, now: u64) -> (r: Option<String>)
        ensures
            match r {
                Some(t) => self.view_map().contains_key(host@) && self.view_map()[host@].0 == t@
                    && is_fresh(self.view_map()[host@].1, now),
                None => !self.view_map().contains_key(host@) || !is_fresh(
                    self.view_map()[host@].1,
                    now,
                ),
            },
    {
        match self.entries.get(host) {
            Some(e) => {
                if e.1 <= now && now - e.1 < ROBOTS_TTL_SECS {
                    Some(e.0.clone())
                } else {
                    None
                }
            },
            None => None,
        }
    }

    /// Records the robots.txt of `host` fetched at `now` (an empty text when
    /// the fetch failed, which allows everything).
    pub fn store(&mut self, host: String, robots: String, now: u64)
        ensures
            final(self).view_map() == old(self).view_map().insert(host@, (robots@, now)),
    {
        let ghost h = host@;
        let ghost t = robots@;
        self.entries.insert(host, (robots, now));
        assert(self.view_map() =~= old(self).view_map().insert(h, (t, now)));
    }
}

} // verus!
