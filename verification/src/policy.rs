//! What the runtime accepts: which scripts it fetches, which responses it
//! runs, the source patches it applies, and which errors are worth a log.
use vstd::prelude::*;
use crate::script_tag::{before_semicolon, semicolon_prefix};
use crate::text::{occurs_at, chars_of, contains, contains_str, copy_range, eq_ic, eq_ic_str, push_str, replace_all, replace_str, string_from_chars, string_of, trim, trim_bounds};

verus! {

/// `p` ends `s`.
pub open spec fn ends_with(s: Seq<char>, p: Seq<char>) -> bool {
    p.len() <= s.len() && s.skip(s.len() - p.len()) == p
}

fn ends_with_str(s: &[char], p: &str) -> (r: bool)
    ensures
        r == ends_with(s@, p@),
{
    let pc = chars_of(p);
    if pc.len() > s.len() {
        return false;
    }
    let tail = copy_range(s, s.len() - pc.len(), s.len());
    let r = crate::text::eq_slices(tail.as_slice(), pc.as_slice());
    assert(tail@ =~= s@.skip(s@.len() - p@.len()));
    r
}

/// Analytics and tracking hosts, and TypeScript sources, are not run.
pub open spec fn skipped_url(url: Seq<char>) -> bool {
    contains(url, "usefathom.com"@) || contains(url, "cloudflareinsights.com"@) || contains(
        url,
        "google-analytics"@,
    ) || contains(url, "googletagmanager"@) || contains(url, "doubleclick.net"@) || contains(
        url,
        "facebook.net"@,
    ) || contains(url, "sentry.io"@) || contains(url, "hotjar"@) || contains(url, "fullstory"@)
        || ends_with(url, ".ts"@) || contains(url, ".ts?"@)
}

/// True for scripts that are not fetched: analytics and tracking, and
/// TypeScript files.
pub fn should_skip_script(url: &str) -> (r: bool)
    ensures
        r == skipped_url(url@),
{
    let u = chars_of(url);
    let s = u.as_slice();
    contains_str(s, "usefathom.com") || contains_str(s, "cloudflareinsights.com") || contains_str(
        s,
        "google-analytics",
    ) || contains_str(s, "googletagmanager") || contains_str(s, "doubleclick.net")
        || contains_str(s, "facebook.net") || contains_str(s, "sentry.io") || contains_str(
        s,
        "hotjar",
    ) || contains_str(s, "fullstory") || ends_with_str(s, ".ts") || contains_str(s, ".ts?")
}

/// A classic script is run when its response has no `Content-Type`, or when
/// the media type before any `;`, trimmed, is a JavaScript type, `text/html`
/// or `text/plain`, compared without regard to ASCII case. (Full Unicode
/// lower-casing maps no other character onto the letters of these names.)
pub open spec fn mime_executable(mime: Option<Seq<char>>) -> bool {
    match mime {
        None => true,
        Some(m) => {
            let b = trim(before_semicolon(m));
            eq_ic(b, "application/javascript"@) || eq_ic(b, "text/javascript"@) || eq_ic(
                b,
                "application/x-javascript"@,
            ) || eq_ic(b, "application/ecmascript"@) || eq_ic(b, "text/ecmascript"@) || eq_ic(
                b,
                "text/html"@,
            ) || eq_ic(b, "text/plain"@)
        },
    }
}

/// Whether a classic script with this `Content-Type` may run.
pub fn script_mime_executable(mime: Option<&str>) -> (r: bool)
    ensures
        r == mime_executable(match mime {
            Some(m) => Some(m@),
            None => None,
        }),
{
    match mime {
        None => true,
        Some(m) => {
            let mc = chars_of(m);
            let k = semicolon_prefix(mc.as_slice());
            let head = copy_range(mc.as_slice(), 0, k);
            let (lo, hi) = trim_bounds(head.as_slice());
            let b = copy_range(head.as_slice(), lo, hi);
            assert(head@ =~= mc@.take(k as int));
            let s = b.as_slice();
            eq_ic_str(s, "application/javascript") || eq_ic_str(s, "text/javascript") || eq_ic_str(
                s,
                "application/x-javascript",
            ) || eq_ic_str(s, "application/ecmascript") || eq_ic_str(s, "text/ecmascript")
                || eq_ic_str(s, "text/html") || eq_ic_str(s, "text/plain")
        },
    }
}

/// The outcome of the `Content-Type` check of a fetched classic script:
/// `Err("blocked script MIME: <type>")` when it may not run.
pub fn script_response_check(mime: Option<&str>) -> (r: Result<(), String>)
    ensures
        r is Ok <==> mime_executable(match mime {
            Some(m) => Some(m@),
            None => None,
        }),
        r matches Err(e) ==> e@ == "blocked script MIME: "@ + match mime {
            Some(m) => m@,
            None => seq![],
        },
{
    if script_mime_executable(mime) {
        return Ok(());
    }
    let mut out: Vec<char> = Vec::new();
    push_str(&mut out, "blocked script MIME: ");
    match mime {
        Some(m) => push_str(&mut out, m),
        None => {},
    }
    Err(string_from_chars(out.as_slice()))
}

/// The three patches applied to scripts served from a docsify URL: guards
/// against `null` in Prism's language walk and in docsify's event binding.
pub open spec fn docsify_patched(code: Seq<char>) -> Seq<char> {
    let a = replace_all(code, "t[u(r)]"@, "t[r?u(r):0]"@);
    let b = replace_all(a, "(c=R.util.type(r))"@, "(c=R.util.type(r||0))"@);
    replace_all(
        b,
        "o(n)?window.addEventListener(e,n):e.addEventListener(n,i)"@,
        "null===e||void 0===e||o(n)?window.addEventListener(e,n):e.addEventListener(n,i)"@,
    )
}

/// The source run for a classic script fetched from `url`: patched when the
/// URL names docsify, else as fetched.
pub fn patch_fetched_script(url: &str, code: &str) -> (r: String)
    ensures
        r@ == if contains(url@, "docsify"@) {
            docsify_patched(code@)
        } else {
            code@
        },
{
    let u = chars_of(url);
    if !contains_str(u.as_slice(), "docsify") {
        return string_of(code);
    }
    proof {
        reveal_strlit("t[u(r)]");
        reveal_strlit("(c=R.util.type(r))");
        reveal_strlit("o(n)?window.addEventListener(e,n):e.addEventListener(n,i)");
    }
    let c = chars_of(code);
    let r1 = chars_of("t[r?u(r):0]");
    let a = replace_str(c.as_slice(), "t[u(r)]", r1.as_slice());
    let r2 = chars_of("(c=R.util.type(r||0))");
    let b = replace_str(a.as_slice(), "(c=R.util.type(r))", r2.as_slice());
    let r3 = chars_of(
        "null===e||void 0===e||o(n)?window.addEventListener(e,n):e.addEventListener(n,i)",
    );
    let d = replace_str(
        b.as_slice(),
        "o(n)?window.addEventListener(e,n):e.addEventListener(n,i)",
        r3.as_slice(),
    );
    string_from_chars(d.as_slice())
}

/// A dynamically loaded script body is run only when it is not empty and
/// does not hold both `<` and `>` (an HTML error page, or JSX).
pub open spec fn dyn_body_runnable(body: Seq<char>) -> bool {
    !(body.len() == 0 || (contains(body, seq!['<']) && contains(body, seq!['>'])))
}

/// Whether a fetched dynamic script body is run.
pub fn dyn_script_runnable(body: &str) -> (r: bool)
    ensures
        r == dyn_body_runnable(body@),
{
    let b = chars_of(body);
    if b.len() == 0 {
        return false;
    }
    let lt: [char; 1] = ['<'];
    let gt: [char; 1] = ['>'];
    assert(lt@ =~= seq!['<']);
    assert(gt@ =~= seq!['>']);
    !(crate::text::contains_slice(b.as_slice(), lt.as_slice()) && crate::text::contains_slice(
        b.as_slice(),
        gt.as_slice(),
    ))
}

/// Parse errors that come from JSX and other non-standard syntax: expected,
/// and not logged.
pub open spec fn parse_noise(err: Seq<char>) -> bool {
    contains(err, "token in expression: '<'"@) || contains(err, "unexpected token"@)
}

/// Whether an error of a dynamically loaded script is logged.
pub fn log_dyn_error(err: &str) -> (r: bool)
    ensures
        r == !parse_noise(err@),
{
    let e = chars_of(err);
    !(contains_str(e.as_slice(), "token in expression: '<'") || contains_str(
        e.as_slice(),
        "unexpected token",
    ))
}

/// Whether an error of a module-phase script is logged: parse noise and the
/// errors that follow from it (`not a function`, `cannot read property`)
/// are not.
pub fn log_module_error(err: &str) -> (r: bool)
    ensures
        r == !(parse_noise(err@) || contains(err@, "not a function"@) || contains(
            err@,
            "cannot read property"@,
        )),
{
    let e = chars_of(err);
    !(contains_str(e.as_slice(), "not a function") || contains_str(
        e.as_slice(),
        "cannot read property",
    ) || contains_str(e.as_slice(), "token in expression: '<'") || contains_str(
        e.as_slice(),
        "unexpected token",
    ))
}


/// Every URL that names an analytics or tracking host (`usefathom.com`,
/// `cloudflareinsights.com`, `google-analytics`, `googletagmanager`,
/// `doubleclick.net`, `facebook.net`, `sentry.io`, `hotjar`, `fullstory`),
/// and every TypeScript file (`.ts` at the end or before a query), is
/// skipped, whatever the rest of the URL is.
pub proof fn lemma_tracking_urls_skipped(before: Seq<char>, after: Seq<char>)
    ensures
        skipped_url(before + "usefathom.com"@ + after),
        skipped_url(before + "cloudflareinsights.com"@ + after),
        skipped_url(before + "google-analytics"@ + after),
        skipped_url(before + "googletagmanager"@ + after),
        skipped_url(before + "doubleclick.net"@ + after),
        skipped_url(before + "facebook.net"@ + after),
        skipped_url(before + "sentry.io"@ + after),
        skipped_url(before + "hotjar"@ + after),
        skipped_url(before + "fullstory"@ + after),
        skipped_url(before + ".ts?"@ + after),
        skipped_url(before + ".ts"@),
{
    lemma_contains_middle(before, "usefathom.com"@, after);
    lemma_contains_middle(before, "cloudflareinsights.com"@, after);
    lemma_contains_middle(before, "google-analytics"@, after);
    lemma_contains_middle(before, "googletagmanager"@, after);
    lemma_contains_middle(before, "doubleclick.net"@, after);
    lemma_contains_middle(before, "facebook.net"@, after);
    lemma_contains_middle(before, "sentry.io"@, after);
    lemma_contains_middle(before, "hotjar"@, after);
    lemma_contains_middle(before, "fullstory"@, after);
    lemma_contains_middle(before, ".ts?"@, after);
    let u = before + ".ts"@;
    assert(u.skip(u.len() - (".ts"@).len()) =~= ".ts"@);
}

proof fn lemma_contains_middle(a: Seq<char>, m: Seq<char>, b: Seq<char>)
    ensures
        contains(a + m + b, m),
{
    let s = a + m + b;
    assert(s.subrange(a.len() as int, (a.len() + m.len()) as int) =~= m);
    assert(occurs_at(s, m, a.len() as int));
}

} // verus!
