//! The cache of fetched script sources, keyed by absolute URL, so that each
//! URL is fetched once per run.
use vstd::prelude::*;
use crate::policy::{mime_executable, script_response_check};
use crate::text::{chars_of, eq_slices, string_of};

verus! {

/// Script sources by URL.
pub struct ScriptCache {
    entries: Vec<(String, String)>,
}

/// The map that a list of entries stands for, later entries first.
pub open spec fn map_of(s: Seq<(String, String)>) -> Map<Seq<char>, Seq<char>>
    decreases s.len(),
{
    if s.len() == 0 {
        Map::empty()
    } else {
        map_of(s.drop_last()).insert(s.last().0@, s.last().1@)
    }
}

/// No URL occurs twice.
pub open spec fn keys_unique(s: Seq<(String, String)>) -> bool {
    forall|i: int, j: int| 0 <= i < j < s.len() ==> s[i].0@ != s[j].0@
}

proof fn lemma_map_of_absent(s: Seq<(String, String)>, k: Seq<char>, i: int)
    requires
        0 <= i <= s.len(),
        forall|j: int| i <= j < s.len() ==> s[j].0@ != k,
    ensures
        map_of(s).contains_key(k) == map_of(s.take(i)).contains_key(k),
        map_of(s).contains_key(k) ==> map_of(s)[k] == map_of(s.take(i))[k],
    decreases s.len(),
{
    if s.len() > i {
        assert(s.drop_last().take(i) =~= s.take(i));
        lemma_map_of_absent(s.drop_last(), k, i);
    } else {
        assert(s.take(i) =~= s);
    }
}

proof fn lemma_map_of_update(s: Seq<(String, String)>, i: int, e: (String, String))
    requires
        keys_unique(s),
        0 <= i < s.len(),
        s[i].0@ == e.0@,
    ensures
        map_of(s.update(i, e)) == map_of(s).insert(e.0@, e.1@),
        keys_unique(s.update(i, e)),
    decreases s.len(),
{
    let t = s.update(i, e);
    if i == s.len() - 1 {
        assert(t.drop_last() =~= s.drop_last());
        assert(map_of(t) =~= map_of(s).insert(e.0@, e.1@));
    } else {
        assert(t.drop_last() =~= s.drop_last().update(i, e));
        lemma_map_of_update(s.drop_last(), i, e);
        assert(s.last().0@ != e.0@);
        assert(map_of(t) =~= map_of(s).insert(e.0@, e.1@));
    }
    assert forall|a: int, b: int| 0 <= a < b < t.len() implies t[a].0@ != t[b].0@ by {
        assert(s[a].0@ != s[b].0@);
    }
}

impl ScriptCache {
    pub closed spec fn view(&self) -> Map<Seq<char>, Seq<char>> {
        map_of(self.entries@)
    }

    pub closed spec fn wf(&self) -> bool {
        keys_unique(self.entries@)
    }

    /// An empty cache.
    pub fn new() -> (r: Self)
        ensures
            r.wf(),
            r.view() == Map::<Seq<char>, Seq<char>>::empty(),
    {
        ScriptCache { entries: Vec::new() }
    }

    fn find(&self, url: &[char]) -> (r: Option<usize>)
        requires
            self.wf(),
        ensures
            match r {
                Some(i) => i < self.entries@.len() && self.entries@[i as int].0@ == url@,
                None => forall|j: int|
                    0 <= j < self.entries@.len() ==> self.entries@[j].0@ != url@,
            },
    {
        let mut i: usize = 0;
        while i < self.entries.len()
            invariant
                i <= self.entries@.len(),
                forall|j: int| 0 <= j < i ==> self.entries@[j].0@ != url@,
            decreases self.entries@.len() - i,
        {
            let k = chars_of(self.entries[i].0.as_str());
            if eq_slices(k.as_slice(), url) {
                return Some(i);
            }
            i = i + 1;
        }
        None
    }

    /// The cached source of `url`, if any.
    pub fn get(&self, url: &str) -> (r: Option<String>)
        requires
            self.wf(),
        ensures
            match r {
                Some(v) => self.view().contains_key(url@) && self.view()[url@] == v@,
                None => !self.view().contains_key(url@),
            },
    {
        let u = chars_of(url);
        match self.find(u.as_slice()) {
            Some(i) => {
                proof {
                    let s = self.entries@;
                    lemma_map_of_absent(s, url@, i + 1);
                    assert(s.take(i + 1).drop_last() =~= s.take(i as int));
                    assert(s.take(i + 1).last() == s[i as int]);
                }
                Some(self.entries[i].1.clone())
            },
            None => {
                proof {
                    lemma_map_of_absent(self.entries@, url@, 0);
                    assert(self.entries@.take(0) =~= Seq::<(String, String)>::empty());
                }
                None
            },
        }
    }

    /// Stores `code` as the source of `url`, replacing an earlier one.
    pub fn insert(&mut self, url: String, code: String)
        requires
            old(self).wf(),
        ensures
            final(self).wf(),
            final(self).view() == old(self).view().insert(url@, code@),
    {
        let u = chars_of(url.as_str());
        match self.find(u.as_slice()) {
            Some(i) => {
                let ghost e = (url, code);
                proof {
                    lemma_map_of_update(self.entries@, i as int, e);
                }
                self.entries.set(i, (url, code));
            },
            None => {
                let ghost s = self.entries@;
                self.entries.push((url, code));
                assert(self.entries@.drop_last() =~= s);
            },
        }
    }
}

/// What a read of the cache gives after a write: the written source for
/// the written URL, and for any other URL what it gave before.
pub proof fn lemma_cache_read_after_write(
    before: ScriptCache,
    after: ScriptCache,
    url: Seq<char>,
    code: Seq<char>,
    other: Seq<char>,
)
    requires
        after.view() == before.view().insert(url, code),
    ensures
        after.view().contains_key(url),
        after.view()[url] == code,
        other != url ==> (after.view().contains_key(other) == before.view().contains_key(other)),
        other != url && before.view().contains_key(other) ==> after.view()[other]
            == before.view()[other],
{
}

/// The message of a script fetch skipped because the run's time is up.
pub const DEADLINE_SKIP_MSG: &'static str = "global JS deadline exceeded (script fetch skipped)";

/// How a classic script's fetch begins.
#[derive(Debug)]
pub enum ScriptFetchStart {
    /// The source was cached: no request.
    Cached(String),
    /// No request, with this error.
    Skipped(String),
    /// Request the URL, then hand the response to `script_fetch_finish`.
    Fetch,
}

/// The first step of fetching a classic script: a cached source is used
/// as it is; otherwise, once the run's deadline has passed, the fetch is
/// skipped with `DEADLINE_SKIP_MSG`; otherwise the URL is requested.
pub fn script_fetch_start(cache: &ScriptCache, url: &str, deadline_exceeded: bool) -> (r:
    ScriptFetchStart)
    requires
        cache.wf(),
    ensures
        cache.view().contains_key(url@) ==> (r matches ScriptFetchStart::Cached(c) && c@
            == cache.view()[url@]),
        !cache.view().contains_key(url@) && deadline_exceeded ==> (r matches ScriptFetchStart::Skipped(
            e,
        ) && e@ == DEADLINE_SKIP_MSG@),
        !cache.view().contains_key(url@) && !deadline_exceeded ==> r is Fetch,
{
    match cache.get(url) {
        Some(code) => ScriptFetchStart::Cached(code),
        None => {
            if deadline_exceeded {
                ScriptFetchStart::Skipped(string_of(DEADLINE_SKIP_MSG))
            } else {
                ScriptFetchStart::Fetch
            }
        },
    }
}

/// The last step of fetching a classic script, given the response's
/// `Content-Type` and its body as text (or the error of reading it): a type
/// that may not run gives the `blocked script MIME` error before the body
/// is looked at; a body that could not be read gives its error; otherwise
/// the source is cached for `url` and returned. Only a success changes the
/// cache.
pub fn script_fetch_finish(
    cache: &mut ScriptCache,
    url: &str,
    mime: Option<&str>,
    text: Result<String, String>,
) -> (r: Result<String, String>)
    requires
        old(cache).wf(),
    ensures
        final(cache).wf(),
        !mime_executable(match mime {
            Some(m) => Some(m@),
            None => None,
        }) ==> final(cache).view() == old(cache).view() && (r matches Err(e) && e@
            == "blocked script MIME: "@ + match mime {
            Some(m) => m@,
            None => seq![],
        }),
        mime_executable(match mime {
            Some(m) => Some(m@),
            None => None,
        }) ==> match text {
            Err(t) => final(cache).view() == old(cache).view() && (r matches Err(e) && e@ == t@),
            Ok(c) => final(cache).view() == old(cache).view().insert(url@, c@) && (r matches Ok(
                v,
            ) && v@ == c@),
        },
{
    match script_response_check(mime) {
        Err(e) => Err(e),
        Ok(()) => match text {
            Err(t) => Err(t),
            Ok(code) => {
                let kept = string_of(code.as_str());
                cache.insert(string_of(url), code);
                Ok(kept)
            },
        },
    }
}

/// The script cache as a run starts it: empty. The program keeps one for
/// the whole run and shares it with the module loader.
pub fn script_cache_public() -> (r: ScriptCache)
    ensures
        r.wf(),
        r.view() == Map::<Seq<char>, Seq<char>>::empty(),
{
    ScriptCache::new()
}

} // verus!
