//! Decisions of the development server: which file answers a request, with
//! which content type, and when a change of the sources calls for a rebuild.

use vstd::prelude::*;
use crate::outside::{extension_of, path_extension, path_has_prefix, path_starts_with};
use crate::text::{chars_of, equals_str, join_path, joined_path, string_of};

verus! {

broadcast use vstd::string::group_string_axioms;

// ---------------------------------------------------------------------------
// Requests
// ---------------------------------------------------------------------------

/// The part of a request URL before its query string (before the first `?`).
pub open spec fn before_query(url: Seq<char>) -> Seq<char>
    decreases url.len(),
{
    if url.len() == 0 || url[0] == '?' {
        Seq::empty()
    } else {
        seq![url[0]] + before_query(url.drop_first())
    }
}

/// The path of a request URL: everything before the first `?`.
pub fn request_path(url: &str) -> (r: String)
    ensures
        r@ == before_query(url@),
{
    let v = chars_of(url);
    let mut k: usize = 0;
    assert(v@.skip(0) =~= v@);
    assert(v@.take(0) + before_query(v@) =~= before_query(v@));
    while k < v.len() && v[k] != '?'
        invariant
            k <= v.len(),
            before_query(v@) == v@.take(k as int) + before_query(v@.skip(k as int)),
        decreases v.len() - k,
    {
        assert(v@.skip(k as int).drop_first() =~= v@.skip(k + 1));
        assert(v@.take(k + 1) =~= v@.take(k as int) + seq![v@[k as int]]);
        k = k + 1;
    }
    let mut out: Vec<char> = Vec::new();
    let mut i: usize = 0;
    while i < k
        invariant
            i <= k <= v.len(),
            out@ == v@.take(i as int),
        decreases k - i,
    {
        out.push(v[i]);
        i = i + 1;
        assert(out@ =~= v@.take(i as int));
    }
    assert(before_query(v@.skip(k as int)) =~= Seq::<char>::empty());
    assert(v@.take(k as int) + Seq::<char>::empty() =~= v@.take(k as int));
    string_of(&out)
}

/// `s` without the `c` characters at its start.
pub open spec fn trim_leading(s: Seq<char>, c: char) -> Seq<char>
    decreases s.len(),
{
    if s.len() > 0 && s[0] == c {
        trim_leading(s.drop_first(), c)
    } else {
        s
    }
}

fn trim_leading_slashes(s: &str) -> (r: String)
    ensures
        r@ == trim_leading(s@, '/'),
{
    let v = chars_of(s);
    let mut k: usize = 0;
    assert(v@.skip(0) =~= v@);
    while k < v.len() && v[k] == '/'
        invariant
            k <= v.len(),
            trim_leading(v@, '/') == trim_leading(v@.skip(k as int), '/'),
        decreases v.len() - k,
    {
        assert(v@.skip(k as int).drop_first() =~= v@.skip(k + 1));
        k = k + 1;
    }
    let mut out: Vec<char> = Vec::new();
    let mut i = k;
    while i < v.len()
        invariant
            k <= i <= v.len(),
            out@ == v@.subrange(k as int, i as int),
        decreases v.len() - i,
    {
        out.push(v[i]);
        i = i + 1;
        assert(out@ =~= v@.subrange(k as int, i as int));
    }
    assert(out@ =~= v@.skip(k as int));
    string_of(&out)
}

/// The file a request path names under the output directory: the path
/// without its leading slashes, joined to `output`.
pub fn candidate_path(output: &str, url_path: &str) -> (r: String)
    ensures
        r@ == joined_path(output@, trim_leading(url_path@, '/')),
{
    let rel = trim_leading_slashes(url_path);
    join_path(output, rel.as_str())
}

/// The file that answers a request path.
pub open spec fn resolved_path(output: Seq<char>, url_path: Seq<char>, is_dir: bool) -> Seq<char> {
    let rel = trim_leading(url_path, '/');
    if rel.len() == 0 {
        joined_path(output, "index.html"@)
    } else if is_dir {
        joined_path(joined_path(output, rel), "index.html"@)
    } else {
        joined_path(output, rel)
    }
}

/// The file that answers a request path: `index.html` for the root, the
/// directory's `index.html` where the named file (see [`candidate_path`]) is
/// a directory (`is_dir`), the named file otherwise.
pub fn resolve_path(output: &str, url_path: &str, is_dir: bool) -> (r: String)
    ensures
        r@ == resolved_path(output@, url_path@, is_dir),
{
    let rel = trim_leading_slashes(url_path);
    if rel.as_str().unicode_len() == 0 {
        join_path(output, "index.html")
    } else {
        let candidate = join_path(output, rel.as_str());
        if is_dir {
            join_path(candidate.as_str(), "index.html")
        } else {
            candidate
        }
    }
}

/// The content type served for a file extension.
pub open spec fn content_type_of(ext: Option<Seq<char>>) -> Seq<char> {
    match ext {
        Some(e) => if e == "html"@ {
            "text/html; charset=utf-8"@
        } else if e == "css"@ {
            "text/css"@
        } else if e == "js"@ {
            "application/javascript"@
        } else if e == "woff2"@ {
            "font/woff2"@
        } else if e == "woff"@ {
            "font/woff"@
        } else if e == "svg"@ {
            "image/svg+xml"@
        } else if e == "png"@ {
            "image/png"@
        } else if e == "ico"@ {
            "image/x-icon"@
        } else {
            "application/octet-stream"@
        },
        None => "application/octet-stream"@,
    }
}

/// The content type of a file, by its extension.
pub fn content_type(path: &str) -> (r: &'static str)
    ensures
        r@ == content_type_of(path_extension(path@)),
{
    match extension_of(path) {
        Some(e) => {
            let v = chars_of(e.as_str());
            if equals_str(&v, "html") {
                "text/html; charset=utf-8"
            } else if equals_str(&v, "css") {
                "text/css"
            } else if equals_str(&v, "js") {
                "application/javascript"
            } else if equals_str(&v, "woff2") {
                "font/woff2"
            } else if equals_str(&v, "woff") {
                "font/woff"
            } else if equals_str(&v, "svg") {
                "image/svg+xml"
            } else if equals_str(&v, "png") {
                "image/png"
            } else if equals_str(&v, "ico") {
                "image/x-icon"
            } else {
                "application/octet-stream"
            }
        },
        None => "application/octet-stream",
    }
}

// ---------------------------------------------------------------------------
// Rebuilding on changes
// ---------------------------------------------------------------------------

/// A change of these paths touches a Lean source and nothing in the output
/// directory.
pub open spec fn source_change(paths: Seq<Seq<char>>, output: Seq<char>) -> bool {
    &&& exists|i: int| 0 <= i < paths.len() && path_extension(#[trigger] paths[i]) == Some("lean"@)
    &&& !exists|i: int| 0 <= i < paths.len() && path_has_prefix(#[trigger] paths[i], output)
}

/// Whether a file-system event on `paths` calls for a rebuild: some path is
/// a `.lean` file and none lies in the output directory.
pub fn is_source_change(paths: &Vec<String>, output: &str) -> (b: bool)
    ensures
        b == source_change(paths@.map_values(|p: String| p@), output@),
{
    let ghost ps = paths@.map_values(|p: String| p@);
    let mut lean = false;
    let mut in_output = false;
    let mut i: usize = 0;
    while i < paths.len()
        invariant
            i <= paths.len(),
            ps == paths@.map_values(|p: String| p@),
            lean == exists|j: int| 0 <= j < i && path_extension(#[trigger] ps[j]) == Some("lean"@),
            in_output == exists|j: int| 0 <= j < i && path_has_prefix(#[trigger] ps[j], output@),
        decreases paths.len() - i,
    {
        let p = paths[i].as_str();
        assert(ps[i as int] == p@);
        match extension_of(p) {
            Some(e) => {
                let v = chars_of(e.as_str());
                if equals_str(&v, "lean") {
                    lean = true;
                }
            },
            None => {},
        }
        if path_starts_with(p, output) {
            in_output = true;
        }
        i = i + 1;
    }
    lean && !in_output
}

/// The time after the last source change before a rebuild, in milliseconds.
pub const DEBOUNCE_MS: u64 = 300;

/// The watcher's state: whether a rebuild is due, and when (in milliseconds
/// on a monotonic clock) the last source change came.
pub struct WatchState {
    pub pending: bool,
    pub last_change: u64,
}

/// One turn of the watcher at time `now`, after it has waited for an event:
/// `changed` tells whether a source change came (see [`is_source_change`]).
/// Returns the next state and whether to rebuild now: a rebuild comes once
/// the last change is at least [`DEBOUNCE_MS`] old.
pub fn watch_step(st: &WatchState, changed: bool, now: u64) -> (r: (WatchState, bool))
    ensures
        ({
            let pending = changed || st.pending;
            let last = if changed {
                now
            } else {
                st.last_change
            };
            &&& r.1 == (pending && now >= last && now - last >= DEBOUNCE_MS)
            &&& r.0.pending == (pending && !r.1)
            &&& r.0.last_change == last
        }),
{
    let pending = changed || st.pending;
    let last = if changed {
        now
    } else {
        st.last_change
    };
    let rebuild = pending && now >= last && now - last >= DEBOUNCE_MS;
    (WatchState { pending: pending && !rebuild, last_change: last }, rebuild)
}

} // verus!
