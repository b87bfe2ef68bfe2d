//! Script and module URLs: resolution against the page URL through the
//! `url` crate, origins, and the per-origin reuse of storage across
//! document navigations.
use vstd::prelude::*;
use crate::text::{chars_of, copy_range, eq_slices, find_first, first_occ, occurs_at, occurs_at_exec, push_all, push_str, string_from_chars, string_of};

verus! {

/// The serialization of the URL that `url::Url::parse` makes of `s`, or
/// `None` when `s` is not an absolute URL.
pub uninterp spec fn parsed_href(s: Seq<char>) -> Option<Seq<char>>;

/// The serialization of `rel` resolved by `url::Url::join` against the URL
/// that `url::Url::parse` makes of `base`, or `None` when either fails.
pub uninterp spec fn joined_href(base: Seq<char>, rel: Seq<char>) -> Option<Seq<char>>;

/// The host (`url::Url::host_str`) of the URL that `url::Url::parse` makes
/// of `s`, or `None` when it does not parse or has no host.
pub uninterp spec fn parsed_host(s: Seq<char>) -> Option<Seq<char>>;

pub open spec fn opt_view(o: Option<String>) -> Option<Seq<char>> {
    match o {
        Some(s) => Some(s@),
        None => None,
    }
}

/// Parses `s` as an absolute URL with `url::Url::parse` and gives its
/// serialization (`Display`). The result is named, not described: the URL
/// parser is the `url` crate's.
#[verifier::external_body]
fn parse_href(s: &str) -> (r: Option<String>)
    ensures
        opt_view(r) == parsed_href(s@),
{
    url::Url::parse(s).ok().map(|u| u.to_string())
}

/// Parses `base` with `url::Url::parse` and resolves `rel` against it with
/// `url::Url::join`, giving the serialization of the result.
#[verifier::external_body]
fn join_href(base: &str, rel: &str) -> (r: Option<String>)
    ensures
        opt_view(r) == joined_href(base@, rel@),
{
    url::Url::parse(base).ok().and_then(|b| b.join(rel).ok()).map(|u| u.to_string())
}

/// The host of `s` as `url::Url::parse` and `url::Url::host_str` give it.
#[verifier::external_body]
fn url_host(s: &str) -> (r: Option<String>)
    ensures
        opt_view(r) == parsed_host(s@),
{
    url::Url::parse(s).ok().and_then(|u| u.host_str().map(|h| h.to_string()))
}

/// Where a script's `src` points: the `src` itself when it is an absolute
/// URL, else the `src` resolved against the page URL, when there is one.
pub open spec fn script_url(src: Seq<char>, base: Option<Seq<char>>) -> Option<Seq<char>> {
    if parsed_href(src) is Some {
        parsed_href(src)
    } else {
        match base {
            Some(b) => joined_href(b, src),
            None => None,
        }
    }
}

/// The absolute URL of a script's `src`, in the serialization of the `url`
/// crate.
pub fn resolve_script_url(src: &str, base_url: Option<&str>) -> (r: Option<String>)
    ensures
        opt_view(r) == script_url(src@, match base_url {
            Some(b) => Some(b@),
            None => None,
        }),
{
    let direct = parse_href(src);
    if direct.is_some() {
        return direct;
    }
    match base_url {
        Some(base) => join_href(base, src),
        None => None,
    }
}

pub open spec fn starts_with(s: Seq<char>, p: Seq<char>) -> bool {
    p.len() <= s.len() && s.take(p.len() as int) == p
}

fn starts_with_str(s: &[char], p: &str) -> (r: bool)
    ensures
        r == starts_with(s@, p@),
{
    let pc = chars_of(p);
    let r = occurs_at_exec(s, pc.as_slice(), 0);
    assert(r == starts_with(s@, p@)) by {
        if p@.len() <= s@.len() {
            assert(s@.subrange(0, p@.len() as int) =~= s@.take(p@.len() as int));
        }
    }
    r
}

/// A specifier written as a path: `./`, `../` or `/` at its start.
pub open spec fn path_specifier(name: Seq<char>) -> bool {
    starts_with(name, "./"@) || starts_with(name, "../"@) || starts_with(name, "/"@)
}

/// Where a module specifier points: itself when it is an `http` or `https`
/// URL, the specifier resolved against the module's base URL when it is a
/// path, and `None` for a bare specifier (`react`), which the bundler has
/// already inlined.
pub open spec fn module_url(base: Seq<char>, name: Seq<char>) -> Option<Seq<char>> {
    if starts_with(name, "http://"@) || starts_with(name, "https://"@) {
        Some(name)
    } else if path_specifier(name) {
        joined_href(base, name)
    } else {
        None
    }
}

/// The absolute URL of a module specifier; `None` for a bare specifier.
pub fn resolve_module_specifier(base_url: &str, name: &str) -> (r: Option<String>)
    ensures
        opt_view(r) == module_url(base_url@, name@),
{
    let n = chars_of(name);
    if starts_with_str(n.as_slice(), "http://") || starts_with_str(n.as_slice(), "https://") {
        return Some(string_of(name));
    }
    if starts_with_str(n.as_slice(), "./") || starts_with_str(n.as_slice(), "../")
        || starts_with_str(n.as_slice(), "/") {
        return join_href(base_url, name);
    }
    None
}

/// `scheme://host[:port]` of a URL, read as text: up to the first `/` after
/// the first `://`; the whole text when there is no `://`.
pub open spec fn origin_of(url: Seq<char>) -> Seq<char> {
    match first_occ(url, "://"@, 0) {
        Some(p) => {
            let after = url.skip(p + 3);
            let h = match first_occ(after, "/"@, 0) {
                Some(k) => k,
                None => after.len() as int,
            };
            url.take(p) + "://"@ + after.take(h)
        },
        None => url,
    }
}

/// The origin of a URL (`https://vite.dev/assets/app.js` gives
/// `https://vite.dev`).
pub fn url_origin(url: &str) -> (r: String)
    ensures
        r@ == origin_of(url@),
{
    proof {
        reveal_strlit("://");
        reveal_strlit("/");
    }
    let u = chars_of(url);
    let sep = chars_of("://");
    let n = u.len();
    match find_first(u.as_slice(), sep.as_slice(), 0) {
        Some(p) => {
            proof {
                crate::text::lemma_first_occ_bounds(u@, sep@, 0);
                assert(sep@.len() == 3);
                assert(occurs_at(u@, sep@, p as int));
            }
            assert(p + 3 <= n);
            let after = copy_range(u.as_slice(), p + 3, n);
            let slash = chars_of("/");
            let h = match find_first(after.as_slice(), slash.as_slice(), 0) {
                Some(k) => {
                    proof {
                        crate::text::lemma_first_occ_bounds(after@, slash@, 0);
                    }
                    k
                },
                None => after.len(),
            };
            let mut out = copy_range(u.as_slice(), 0, p);
            push_str(&mut out, "://");
            let host = copy_range(after.as_slice(), 0, h);
            push_all(&mut out, host.as_slice());
            assert(after@ =~= u@.skip(p + 3));
            assert(out@ =~= origin_of(url@));
            string_from_chars(out.as_slice())
        },
        None => string_of(url),
    }
}

/// The origin that a page's storage belongs to: that of its URL, or
/// `about:blank` without one.
pub open spec fn page_origin_of(base: Option<Seq<char>>) -> Seq<char> {
    match base {
        Some(b) => origin_of(b),
        None => "about:blank"@,
    }
}

/// The origin of the page at `base_url`.
pub fn page_origin(base_url: Option<&str>) -> (r: String)
    ensures
        r@ == page_origin_of(match base_url {
            Some(b) => Some(b@),
            None => None,
        }),
{
    match base_url {
        Some(b) => url_origin(b),
        None => string_of("about:blank"),
    }
}

/// A navigation keeps the previous page's storage exactly when it stays on
/// the same origin; the first page always gets new storage.
pub fn reuse_storage(prev_origin: Option<&str>, origin: &str) -> (r: bool)
    ensures
        r == match prev_origin {
            Some(p) => p@ == origin@,
            None => false,
        },
{
    match prev_origin {
        Some(p) => {
            let a = chars_of(p);
            let b = chars_of(origin);
            eq_slices(a.as_slice(), b.as_slice())
        },
        None => false,
    }
}

/// The most document navigations that one run follows.
pub const MAX_NAV_HOPS: u64 = 5;

/// Whether a navigation that the page at hop `hop` asked for is followed:
/// only while fewer than `MAX_NAV_HOPS` hops were made.
pub fn follow_navigation(hop: u64) -> (r: bool)
    ensures
        r == (hop < MAX_NAV_HOPS),
{
    hop < MAX_NAV_HOPS
}

/// The mobile page that carries the cls.cn telegraph data.
pub const CLS_MOBILE_URL: &'static str = "https://m.cls.cn/telegraph";

/// Which data page to fetch for the SSR fallback of a page: the cls.cn
/// mobile page, with the host it was chosen for, when the page's host is a
/// cls.cn host; `None` for an empty URL, `about:blank`, a URL without a
/// host, and any other host.
pub open spec fn fallback_source(base: Seq<char>) -> Option<(Seq<char>, Seq<char>)> {
    if base.len() == 0 || base == "about:blank"@ {
        None
    } else {
        match parsed_host(base) {
            Some(h) => if crate::fallback::is_cls_host(h) {
                Some((h, CLS_MOBILE_URL@))
            } else {
                None
            },
            None => None,
        }
    }
}

/// The host and the data page for the SSR fallback of the page at
/// `base_url`, when the page's host has a fallback.
pub fn csr_fallback_source(base_url: &str) -> (r: Option<(String, String)>)
    ensures
        match r {
            Some((h, u)) => fallback_source(base_url@) == Some((h@, u@)),
            None => fallback_source(base_url@) is None,
        },
{
    let b = chars_of(base_url);
    if b.len() == 0 || crate::text::eq_str(b.as_slice(), "about:blank") {
        return None;
    }
    match url_host(base_url) {
        Some(h) => {
            if crate::fallback::host_is_cls_cn(h.as_str()) {
                Some((h, string_of(CLS_MOBILE_URL)))
            } else {
                None
            }
        },
        None => None,
    }
}

} // verus!
