//! Where a request goes: the split of a URL into path and query, login,
//! the API and static files, the API's endpoints, the quiz mode in a query
//! string, and which static file a path names and with what content type.

use vstd::prelude::*;

use crate::numbers::{parse_i64_range, parse_i64_spec};
use crate::text::{
    chars_of, find_field, first_with_prefix, has_prefix, range_has_prefix, split_on, str_eq,
};

verus! {

/// The HTTP methods the server tells apart.
#[derive(Clone, Copy, Debug)]
pub enum Method {
    Get,
    Post,
    Put,
    Delete,
    Other,
}

/// The part of the server that answers a request.
#[derive(Clone, Copy, Debug)]
pub enum Target {
    /// `POST /api/login`, open without a session.
    Login,
    /// Any other path under `/api/`, open only with a session.
    Api,
    /// Everything else: a file of the web front end.
    Static,
}

/// The endpoints of the API.
#[derive(Clone, Copy, Debug)]
pub enum Route {
    ListWords,
    AddWord,
    UpdateWord(i64),
    DeleteWord(i64),
    Quiz,
    Review,
    NoSuchEndpoint,
}

/// `s` holds no `c`.
pub open spec fn free_of(s: Seq<char>, c: char) -> bool {
    forall|i: int| 0 <= i < s.len() ==> s[i] != c
}

/// Splits a request URL at its first `?` into path and query; a URL without
/// `?` is all path, with an empty query.
pub fn split_url(url: &str) -> (r: (String, String))
    ensures
        free_of(url@, '?') ==> r.0@ == url@ && r.1@ == Seq::<char>::empty(),
        !free_of(url@, '?') ==> {
            &&& free_of(r.0@, '?')
            &&& url@ == r.0@ + seq!['?'] + r.1@
        },
{
    let cs = chars_of(url);
    let n = cs.len();
    let mut i: usize = 0;
    while i < n && cs[i] != '?'
        invariant
            n == cs@.len(),
            cs@ == url@,
            i <= n,
            forall|j: int| 0 <= j < i ==> cs@[j] != '?',
        decreases n - i,
    {
        i = i + 1;
    }
    if i == n {
        assert(url@.subrange(0, n as int) =~= url@);
        (String::from_str(url.substring_char(0, n)), String::new())
    } else {
        let path = String::from_str(url.substring_char(0, i));
        let query = String::from_str(url.substring_char(i + 1, n));
        assert(url@ =~= path@ + seq!['?'] + query@);
        (path, query)
    }
}

/// Where a request for `path` goes.
pub open spec fn target_of(method: Method, path: Seq<char>) -> Target {
    if path == "/api/login"@ && method is Post {
        Target::Login
    } else if has_prefix(path, "/api/"@) {
        Target::Api
    } else {
        Target::Static
    }
}

/// Whether `s` starts with `p`.
fn str_has_prefix(s: &str, p: &str) -> (r: bool)
    ensures
        r == has_prefix(s@, p@),
{
    let cs = chars_of(s);
    let ps = chars_of(p);
    assert(cs@.subrange(0, cs@.len() as int) =~= cs@);
    range_has_prefix(&cs, 0, cs.len(), &ps)
}

/// Decides which part of the server answers a request: login is open, the
/// rest of the API needs a session, everything else is a static file.
pub fn request_target(method: Method, path: &str) -> (r: Target)
    ensures
        r == target_of(method, path@),
        !has_prefix(path@, "/api/"@) ==> r is Static,
        r is Api ==> has_prefix(path@, "/api/"@),
        r is Login <==> (path@ == "/api/login"@ && method is Post),
{
    proof {
        lemma_api_needs_session(method, path@);
    }
    if str_eq(path, "/api/login") && matches!(method, Method::Post) {
        Target::Login
    } else if str_has_prefix(path, "/api/") {
        Target::Api
    } else {
        Target::Static
    }
}

/// The status with which a request to the API without a known session is
/// refused.
pub const UNAUTHORIZED_STATUS: u32 = 401;

/// The status of an answer from the API that reports an error.
pub const API_ERROR_STATUS: u32 = 400;

/// The status of a successful answer.
pub const OK_STATUS: u32 = 200;

/// What becomes of a request once its target is known and, for the API,
/// whether the session lookup found its token.
#[derive(Clone, Copy, Debug)]
pub enum Admission {
    /// Answered by the login.
    Login,
    /// Passed on to an API endpoint.
    Endpoint,
    /// Answered with a static file.
    StaticFile,
    /// Refused with the given status, reaching no endpoint.
    Refused(u32),
}

/// The admission of a request to `target`, `session_found` telling whether
/// its session token is a known one.
pub open spec fn admission_of(target: Target, session_found: bool) -> Admission {
    match target {
        Target::Login => Admission::Login,
        Target::Api => if session_found {
            Admission::Endpoint
        } else {
            Admission::Refused(UNAUTHORIZED_STATUS)
        },
        Target::Static => Admission::StaticFile,
    }
}

/// The guard in front of the API: a request to it without a known session is
/// refused with 401 and reaches no endpoint.
pub fn admission(target: Target, session_found: bool) -> (r: Admission)
    ensures
        r == admission_of(target, session_found),
        target is Api && !session_found ==> r == Admission::Refused(401),
        r is Endpoint <==> target is Api && session_found,
{
    match target {
        Target::Login => Admission::Login,
        Target::Api => if session_found {
            Admission::Endpoint
        } else {
            Admission::Refused(UNAUTHORIZED_STATUS)
        },
        Target::Static => Admission::StaticFile,
    }
}

/// The status of an answer from an API endpoint: 200 when it succeeded, 400
/// when it reports an error.
pub fn api_status(succeeded: bool) -> (r: u32)
    ensures
        r == (if succeeded {
            200u32
        } else {
            400u32
        }),
{
    if succeeded {
        OK_STATUS
    } else {
        API_ERROR_STATUS
    }
}

/// The message with which a request about a word that does not exist is
/// refused.
pub open spec fn no_such_word_message() -> Seq<char> {
    "no such word"@
}

/// Refuses a request about a word that the store does not hold: an update
/// that changed no row, or a review of an unknown id.
pub fn require_word(found: bool) -> (r: Result<(), String>)
    ensures
        r is Ok <==> found,
        r matches Err(msg) ==> msg@ == no_such_word_message(),
{
    if found {
        Ok(())
    } else {
        Err(String::from_str("no such word"))
    }
}

/// The number in a path of the form `/api/words/<id>`.
pub open spec fn word_id_in_path(path: Seq<char>) -> Option<i64> {
    if has_prefix(path, "/api/words/"@) {
        parse_i64_spec(path.skip("/api/words/"@.len() as int))
    } else {
        None
    }
}

/// The id of the word a path under `/api/words/` names, if it names one.
pub fn word_id(path: &str) -> (r: Option<i64>)
    ensures
        r == word_id_in_path(path@),
{
    let cs = chars_of(path);
    let prefix = chars_of("/api/words/");
    assert(cs@.subrange(0, cs@.len() as int) =~= cs@);
    if range_has_prefix(&cs, 0, cs.len(), &prefix) {
        assert(cs@.subrange(prefix@.len() as int, cs@.len() as int) =~= path@.skip(
            "/api/words/"@.len() as int,
        ));
        parse_i64_range(&cs, prefix.len(), cs.len())
    } else {
        None
    }
}

/// The endpoint a method and an API path select.
pub open spec fn route_of(method: Method, path: Seq<char>) -> Route {
    if method is Get && path == "/api/words"@ {
        Route::ListWords
    } else if method is Post && path == "/api/words"@ {
        Route::AddWord
    } else if method is Put && word_id_in_path(path) is Some {
        Route::UpdateWord(word_id_in_path(path)->0)
    } else if method is Delete && word_id_in_path(path) is Some {
        Route::DeleteWord(word_id_in_path(path)->0)
    } else if method is Get && path == "/api/quiz"@ {
        Route::Quiz
    } else if method is Post && path == "/api/review"@ {
        Route::Review
    } else {
        Route::NoSuchEndpoint
    }
}

/// Selects the API endpoint for a request.
pub fn route(method: Method, path: &str) -> (r: Route)
    ensures
        r == route_of(method, path@),
{
    let id = word_id(path);
    let is_words = str_eq(path, "/api/words");
    match method {
        Method::Get => {
            if is_words {
                Route::ListWords
            } else if str_eq(path, "/api/quiz") {
                Route::Quiz
            } else {
                Route::NoSuchEndpoint
            }
        },
        Method::Post => {
            if is_words {
                Route::AddWord
            } else if str_eq(path, "/api/review") {
                Route::Review
            } else {
                Route::NoSuchEndpoint
            }
        },
        Method::Put => match id {
            Some(i) => Route::UpdateWord(i),
            None => Route::NoSuchEndpoint,
        },
        Method::Delete => match id {
            Some(i) => Route::DeleteWord(i),
            None => Route::NoSuchEndpoint,
        },
        Method::Other => Route::NoSuchEndpoint,
    }
}

/// The quiz mode a query string asks for: what follows `mode=` in the first
/// `&`-separated part that starts with it, or the empty name.
pub open spec fn query_mode_of(query: Seq<char>) -> Seq<char> {
    match first_with_prefix(split_on(query, '&'), "mode="@, false) {
        Some(m) => m,
        None => Seq::empty(),
    }
}

/// Reads the quiz mode out of a query string.
pub fn query_mode(query: &str) -> (r: String)
    ensures
        r@ == query_mode_of(query@),
{
    let cs = chars_of(query);
    let prefix = chars_of("mode=");
    match find_field(&cs, '&', &prefix, false) {
        Some((lo, hi)) => String::from_str(query.substring_char(lo, hi)),
        None => String::new(),
    }
}

/// `s` without its leading slashes, as `trim_start_matches('/')` gives it.
pub open spec fn strip_leading_slashes(s: Seq<char>) -> Seq<char>
    decreases s.len(),
{
    if s.len() > 0 && s[0] == '/' {
        strip_leading_slashes(s.drop_first())
    } else {
        s
    }
}

/// `s` holds `..` starting at `i`.
pub open spec fn dot_dot_at(s: Seq<char>, i: int) -> bool {
    0 <= i && i + 1 < s.len() && s[i] == '.' && s[i + 1] == '.'
}

/// `s` holds `..` somewhere.
pub open spec fn has_dot_dot(s: Seq<char>) -> bool {
    exists|i: int| #[trigger] dot_dot_at(s, i)
}

/// The file, relative to the directory of the front end, that a path asks
/// for: `index.html` for the root.
pub open spec fn static_rel_of(path: Seq<char>) -> Seq<char> {
    if path == "/"@ {
        "index.html"@
    } else {
        strip_leading_slashes(path)
    }
}

proof fn lemma_strip_leading_slashes_at(s: Seq<char>, k: int)
    requires
        0 <= k <= s.len(),
        forall|i: int| 0 <= i < k ==> s[i] == '/',
        k == s.len() || s[k] != '/',
    ensures
        strip_leading_slashes(s) == s.skip(k),
    decreases k,
{
    if k == 0 {
        assert(s.skip(0) =~= s);
    } else {
        let t = s.drop_first();
        assert forall|i: int| 0 <= i < k - 1 implies t[i] == '/' by {
            assert(t[i] == s[i + 1]);
        }
        lemma_strip_leading_slashes_at(t, k - 1);
        assert(t.skip(k - 1) =~= s.skip(k));
    }
}

/// Whether `s` holds `..`.
fn holds_dot_dot(s: &Vec<char>) -> (r: bool)
    ensures
        r == has_dot_dot(s@),
{
    let mut i: usize = 0;
    while i < s.len() && i + 1 < s.len()
        invariant
            i <= s@.len(),
            forall|j: int| 0 <= j < i ==> !#[trigger] dot_dot_at(s@, j),
        decreases s@.len() - i,
    {
        if s[i] == '.' && s[i + 1] == '.' {
            assert(dot_dot_at(s@, i as int));
            return true;
        }
        i = i + 1;
    }
    assert forall|j: int| !#[trigger] dot_dot_at(s@, j) by {
        if 0 <= j < i {
        }
    }
    false
}

/// The file a static path names, relative to the directory of the front
/// end; `None` where it holds `..`, so that no path leads out of it.
pub fn static_path(path: &str) -> (r: Option<String>)
    ensures
        r is Some <==> !has_dot_dot(static_rel_of(path@)),
        r matches Some(p) ==> p@ == static_rel_of(path@),
{
    let rel: String = if str_eq(path, "/") {
        String::from_str("index.html")
    } else {
        let cs = chars_of(path);
        let mut k: usize = 0;
        while k < cs.len() && cs[k] == '/'
            invariant
                k <= cs@.len(),
                forall|i: int| 0 <= i < k ==> cs@[i] == '/',
            decreases cs@.len() - k,
        {
            k = k + 1;
        }
        proof {
            lemma_strip_leading_slashes_at(cs@, k as int);
            assert(cs@.subrange(k as int, cs@.len() as int) =~= cs@.skip(k as int));
        }
        String::from_str(path.substring_char(k, cs.len()))
    };
    let rel_chars = chars_of(rel.as_str());
    if holds_dot_dot(&rel_chars) {
        None
    } else {
        Some(rel)
    }
}

/// `s` is `..`.
pub open spec fn is_dot_dot(s: Seq<char>) -> bool {
    s.len() == 2 && s[0] == '.' && s[1] == '.'
}

/// `s` is `.`.
pub open spec fn is_dot(s: Seq<char>) -> bool {
    s.len() == 1 && s[0] == '.'
}

/// Of the `/`-separated pieces of a path, the last that names a file or
/// directory: empty pieces and `.` stand for no component, and a final `..`
/// names none.
pub open spec fn last_name(pieces: Seq<Seq<char>>) -> Option<Seq<char>>
    decreases pieces.len(),
{
    if pieces.len() == 0 {
        None
    } else if pieces.last().len() == 0 || is_dot(pieces.last()) {
        last_name(pieces.drop_last())
    } else if is_dot_dot(pieces.last()) {
        None
    } else {
        Some(pieces.last())
    }
}

/// The position of the last `.` in `s`, or -1.
pub open spec fn last_dot(s: Seq<char>) -> int
    decreases s.len(),
{
    if s.len() == 0 {
        -1
    } else if s.last() == '.' {
        s.len() - 1
    } else {
        last_dot(s.drop_last())
    }
}

/// The extension of a file name: what follows its last `.`, where that dot
/// is not the first character.
pub open spec fn name_extension(name: Seq<char>) -> Option<Seq<char>> {
    if last_dot(name) <= 0 {
        None
    } else {
        Some(name.skip(last_dot(name) + 1))
    }
}

/// The extension of the file a relative path names, as `Path::extension`
/// gives it.
pub open spec fn path_extension(rel: Seq<char>) -> Option<Seq<char>> {
    match last_name(split_on(rel, '/')) {
        Some(name) => name_extension(name),
        None => None,
    }
}

proof fn lemma_last_dot_bounds(s: Seq<char>)
    ensures
        -1 <= last_dot(s) < s.len(),
        last_dot(s) >= 0 ==> s[last_dot(s)] == '.',
        forall|i: int| last_dot(s) < i < s.len() ==> s[i] != '.',
    decreases s.len(),
{
    if s.len() > 0 && s.last() != '.' {
        let d = s.drop_last();
        lemma_last_dot_bounds(d);
        assert forall|i: int| last_dot(s) < i < s.len() implies s[i] != '.' by {
            if i < d.len() {
                assert(s[i] == d[i]);
            }
        }
    }
}

proof fn lemma_last_dot_at(s: Seq<char>, k: int)
    requires
        -1 <= k < s.len(),
        k >= 0 ==> s[k] == '.',
        forall|i: int| k < i < s.len() ==> s[i] != '.',
    ensures
        last_dot(s) == k,
    decreases s.len(),
{
    if s.len() > 0 && k < s.len() - 1 {
        let d = s.drop_last();
        assert(s.last() == s[s.len() - 1]);
        assert forall|i: int| k < i < d.len() implies d[i] != '.' by {
            assert(d[i] == s[i]);
        }
        if k >= 0 {
            assert(d[k] == s[k]);
        }
        lemma_last_dot_at(d, k);
    } else if s.len() > 0 {
        assert(s.last() == s[s.len() - 1]);
    }
}

/// The bounds in `s` of the extension of the name `s[from..to]`.
fn name_extension_range(s: &Vec<char>, from: usize, to: usize) -> (r: Option<(usize, usize)>)
    requires
        from <= to <= s@.len(),
    ensures
        match r {
            Some((lo, hi)) => from <= lo <= hi <= to && name_extension(
                s@.subrange(from as int, to as int),
            ) == Some(s@.subrange(lo as int, hi as int)),
            None => name_extension(s@.subrange(from as int, to as int)) is None,
        },
{
    let ghost n = s@.subrange(from as int, to as int);
    let mut k: usize = to;
    while k > from && s[k - 1] != '.'
        invariant
            from <= k <= to <= s@.len(),
            n == s@.subrange(from as int, to as int),
            forall|i: int| k <= i < to ==> s@[i] != '.',
        decreases k - from,
    {
        k = k - 1;
    }
    proof {
        let j = k - from - 1;
        assert forall|i: int| j < i < n.len() implies n[i] != '.' by {
            assert(n[i] == s@[from + i]);
        }
        if j >= 0 {
            assert(n[j] == s@[k - 1]);
        }
        lemma_last_dot_at(n, j);
    }
    if k - from <= 1 {
        None
    } else {
        assert(n.skip(k - from) =~= s@.subrange(k as int, to as int));
        Some((k, to))
    }
}

proof fn lemma_last_name_push(pieces: Seq<Seq<char>>, p: Seq<char>)
    ensures
        last_name(pieces.push(p)) == (if p.len() == 0 || is_dot(p) {
            last_name(pieces)
        } else if is_dot_dot(p) {
            None
        } else {
            Some(p)
        }),
{
    assert(pieces.push(p).drop_last() =~= pieces);
}

/// The extension of the file a relative path names, as `Path::extension`
/// gives it: of the last component that is not `.`, what follows the last
/// `.` that is not its first character.
pub fn file_extension(rel: &str) -> (r: Option<String>)
    ensures
        match r {
            Some(e) => path_extension(rel@) == Some(e@),
            None => path_extension(rel@) is None,
        },
{
    let s = chars_of(rel);
    let n = s.len();
    let mut start: usize = 0;
    let mut i: usize = 0;
    let mut best: Option<(usize, usize)> = None;
    let ghost mut done: Seq<Seq<char>> = Seq::empty();
    assert(s@.take(0) =~= Seq::<char>::empty());
    assert(split_on(Seq::<char>::empty(), '/') =~= done.push(s@.subrange(0, 0)));
    loop
        invariant
            n == s@.len(),
            s@ == rel@,
            start <= i <= n,
            split_on(s@.take(i as int), '/') == done.push(s@.subrange(start as int, i as int)),
            match best {
                Some((lo, hi)) => lo <= hi <= n && last_name(done) == Some(
                    s@.subrange(lo as int, hi as int),
                ),
                None => last_name(done) is None,
            },
        decreases n - i,
    {
        if i == n || s[i] == '/' {
            let ghost piece = s@.subrange(start as int, i as int);
            let len = i - start;
            let dot = len == 1 && s[start] == '.';
            let dot_dot = len == 2 && s[start] == '.' && s[start + 1] == '.';
            proof {
                if len >= 1 {
                    assert(piece[0] == s@[start as int]);
                }
                if len == 2 {
                    assert(piece[1] == s@[start + 1]);
                }
                lemma_last_name_push(done, piece);
            }
            if len == 0 || dot {
            } else if dot_dot {
                best = None;
            } else {
                best = Some((start, i));
            }
            if i == n {
                proof {
                    assert(s@.take(n as int) =~= s@);
                    assert(s@ == rel@);
                }
                return match best {
                    Some((lo, hi)) => match name_extension_range(&s, lo, hi) {
                        Some((a, b)) => Some(String::from_str(rel.substring_char(a, b))),
                        None => None,
                    },
                    None => None,
                };
            }
            proof {
                let t = s@.take(i + 1);
                assert(t.drop_last() =~= s@.take(i as int));
                assert(t.last() == '/');
                done = done.push(piece);
                assert(s@.subrange(i + 1, i + 1) =~= Seq::<char>::empty());
            }
            i = i + 1;
            start = i;
        } else {
            proof {
                let t = s@.take(i + 1);
                assert(t.drop_last() =~= s@.take(i as int));
                assert(t.last() == s@[i as int]);
                assert(s@.subrange(start as int, i + 1) =~= s@.subrange(start as int, i as int).push(
                    s@[i as int],
                ));
                assert(split_on(t, '/') =~= done.push(s@.subrange(start as int, i + 1)));
            }
            i = i + 1;
        }
    }
}

/// The content type to serve the file at relative path `rel` with, by the
/// extension of the file it names.
pub fn content_type_for(rel: &str) -> (r: &'static str)
    ensures
        r@ == content_type_of(path_extension(rel@)),
{
    let ext = file_extension(rel);
    match &ext {
        Some(e) => content_type(Some(e.as_str())),
        None => content_type(None),
    }
}

/// The content type of a static file, by its extension.
pub open spec fn content_type_of(ext: Option<Seq<char>>) -> Seq<char> {
    match ext {
        Some(e) => if e == "html"@ {
            "text/html; charset=utf-8"@
        } else if e == "js"@ {
            "text/javascript"@
        } else if e == "css"@ {
            "text/css"@
        } else if e == "json"@ {
            "application/json"@
        } else if e == "svg"@ {
            "image/svg+xml"@
        } else {
            "application/octet-stream"@
        },
        None => "application/octet-stream"@,
    }
}

/// The content type to serve a static file with, by its extension.
pub fn content_type(ext: Option<&str>) -> (r: &'static str)
    ensures
        r@ == content_type_of(
            match ext {
                Some(e) => Some(e@),
                None => None,
            },
        ),
{
    match ext {
        Some(e) => if str_eq(e, "html") {
            "text/html; charset=utf-8"
        } else if str_eq(e, "js") {
            "text/javascript"
        } else if str_eq(e, "css") {
            "text/css"
        } else if str_eq(e, "json") {
            "application/json"
        } else if str_eq(e, "svg") {
            "image/svg+xml"
        } else {
            "application/octet-stream"
        },
        None => "application/octet-stream",
    }
}

/// Every path under `/api/` except `POST /api/login` goes to the part of the
/// API that needs a session; only paths outside `/api/` are static files.
pub proof fn lemma_api_needs_session(method: Method, path: Seq<char>)
    ensures
        has_prefix(path, "/api/"@) && !(path == "/api/login"@ && method is Post) ==> target_of(
            method,
            path,
        ) is Api,
        target_of(method, path) is Static ==> !has_prefix(path, "/api/"@),
        !has_prefix(path, "/api/"@) ==> target_of(method, path) is Static,
        target_of(method, path) is Api ==> has_prefix(path, "/api/"@),
        target_of(method, path) is Login <==> (path == "/api/login"@ && method is Post),
{
    reveal_strlit("/api/login");
    reveal_strlit("/api/");
    if path == "/api/login"@ {
        assert(path.subrange(0, 5) =~= "/api/"@);
    }
}

proof fn lemma_strip_leading_slashes_result(s: Seq<char>)
    ensures
        strip_leading_slashes(s).len() == 0 || strip_leading_slashes(s)[0] != '/',
    decreases s.len(),
{
    if s.len() > 0 && s[0] == '/' {
        lemma_strip_leading_slashes_result(s.drop_first());
    }
}

/// A served static file is named by a relative path without `..`: it cannot
/// lie outside the directory of the front end.
pub proof fn lemma_static_paths_stay_inside(path: Seq<char>)
    ensures
        !has_dot_dot(static_rel_of(path)) ==> {
            &&& static_rel_of(path).len() == 0 || static_rel_of(path)[0] != '/'
            &&& forall|i: int| !#[trigger] dot_dot_at(static_rel_of(path), i)
        },
{
    reveal_strlit("index.html");
    lemma_strip_leading_slashes_result(path);
}

} // verus!
