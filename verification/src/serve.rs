//! The `ol://` protocol: what a webview program is served.
//!
//! One custom protocol per webview, three routes under one origin:
//!
//!   `ol://app/<process id>`       the shell: one stylesheet link, the page's
//!                                 own identity, the program's entry as the
//!                                 one module script, and nothing else;
//!   `ol://app/<pid>/styles.css`   that surface's whole stylesheet;
//!   `ol://app/mod/<path>`         one file, by its absolute path, so a
//!                                 relative import resolves to the right file
//!                                 and one file on disk is always one URL.
//!
//! Paths are held as the strings they are written as.

use vstd::prelude::*;
use vstd::string::*;
use vstd::utf8::*;
use crate::json::{json_quoted, json_string};
use crate::protocol::same_text;
use crate::text::{lowercased, to_lowercase};
use crate::order::{sort_texts, sorted_is_sorted_texts, sorted_texts, sorted_texts_sorts, views};
use crate::search::{first_where, lemma_first_found, lemma_first_where};
use crate::mounts::{join_path, joined};
use crate::text::{
    chars_of, ends_with, ends_with_exec, find_from, occurs_at, occurs_at_exec, push_all, push_str,
    replace_str, replaced, same_chars, slice, starts_with, starts_with_exec, string_of,
};
use crate::url::{
    decoding_undoes_encoding, encode_path, encode_segment, path_encoded,
    path_encoding_keeps_the_leading_slash, percent_decode, percent_decoded, segment_encoded,
};

verus! {

/// The scheme, registered per webview.
pub const SCHEME: &'static str = "ol";

/// The one origin every route lives under.
pub const ORIGIN: &'static str = "ol://app";

/// What a module route's path begins with.
pub const MODULE_PREFIX: &'static str = "/mod";

/// What a process's own path ends with when the stylesheet is wanted.
pub const STYLES: &'static str = "/styles.css";

/// The warm page's own path. Process ids are generated, so none is ever the
/// bare word `warm`.
pub const WARM: &'static str = "warm";

/// The global a page reads its own process id into.
pub const PROCESS_GLOBAL: &'static str = "__openlight_process";

/// What a request's path asks for.
#[derive(Debug, Clone, PartialEq)]
pub enum Route {
    /// The shell for a process.
    Shell(String),
    /// The stylesheet for a process's surface.
    Styles(String),
    /// A file, by absolute path.
    Module(String),
    /// The prewarm page.
    Warm,
    Unknown,
}

/// A route, with its strings read as characters.
pub enum RouteView {
    Shell(Seq<char>),
    Styles(Seq<char>),
    Module(Seq<char>),
    Warm,
    Unknown,
}

impl View for Route {
    type V = RouteView;

    open spec fn view(&self) -> RouteView {
        match self {
            Route::Shell(s) => RouteView::Shell(s@),
            Route::Styles(s) => RouteView::Styles(s@),
            Route::Module(s) => RouteView::Module(s@),
            Route::Warm => RouteView::Warm,
            Route::Unknown => RouteView::Unknown,
        }
    }
}

/// `s` with every leading `/` removed.
pub open spec fn trim_slashes(s: Seq<char>) -> Seq<char>
    decreases s.len(),
{
    if s.len() > 0 && s[0] == '/' {
        trim_slashes(s.skip(1))
    } else {
        s
    }
}

/// What a request path (always leading-slashed) routes to. A module path is
/// what follows `/mod`, and only when that is itself an absolute path; the
/// bare word `warm` is the warm page; a path ending `/styles.css` after a
/// non-empty process is that process's stylesheet; anything else non-empty is
/// a shell. Process ids and module paths are percent-decoded.
pub open spec fn route_of(path: Seq<char>) -> RouteView {
    let n = MODULE_PREFIX@.len() as int;
    if starts_with(path, MODULE_PREFIX@) && path.len() > n && path[n] == '/' {
        RouteView::Module(percent_decoded(path.skip(n)))
    } else {
        let rest = trim_slashes(path);
        let m = STYLES@.len() as int;
        if rest.len() == 0 {
            RouteView::Unknown
        } else if rest == WARM@ {
            RouteView::Warm
        } else if ends_with(rest, STYLES@) && rest.len() > m {
            RouteView::Styles(percent_decoded(rest.take(rest.len() - m)))
        } else {
            RouteView::Shell(percent_decoded(rest))
        }
    }
}

/// Reads a request's path.
pub fn route(path: &str) -> (r: Route)
    ensures
        r@ == route_of(path@),
{
    proof {
        reveal_strlit("/mod");
        reveal_strlit("/styles.css");
    }
    let p = chars_of(path);
    let prefix = chars_of(MODULE_PREFIX);
    if starts_with_exec(&p, &prefix) && p.len() > prefix.len() && p[prefix.len()] == '/' {
        let rest = slice(&p, prefix.len(), p.len());
        assert(rest@ == p@.skip(prefix@.len() as int));
        let text = string_of(&rest);
        return Route::Module(percent_decode(text.as_str()));
    }
    let mut k: usize = 0;
    assert(p@.skip(0) =~= p@);
    while k < p.len() && p[k] == '/'
        invariant
            k <= p@.len(),
            trim_slashes(p@) == trim_slashes(p@.skip(k as int)),
        decreases p.len() - k,
    {
        assert(p@.skip(k as int).skip(1) =~= p@.skip(k + 1));
        k = k + 1;
    }
    let rest = slice(&p, k, p.len());
    assert(rest@ =~= p@.skip(k as int));
    assert(rest@ == trim_slashes(p@));
    if rest.len() == 0 {
        return Route::Unknown;
    }
    let warm = chars_of(WARM);
    if same_chars(&rest, &warm) {
        return Route::Warm;
    }
    let styles = chars_of(STYLES);
    if ends_with_exec(&rest, &styles) && rest.len() > styles.len() {
        let process = slice(&rest, 0, rest.len() - styles.len());
        assert(process@ =~= rest@.take(rest@.len() - styles@.len()));
        let text = string_of(&process);
        Route::Styles(percent_decode(text.as_str()))
    } else {
        let text = string_of(&rest);
        Route::Shell(percent_decode(text.as_str()))
    }
}

/// The path of a process's shell.
pub open spec fn shell_path(process: Seq<char>) -> Seq<char> {
    "/"@ + segment_encoded(process)
}

/// The path of a process's stylesheet.
pub open spec fn styles_path(process: Seq<char>) -> Seq<char> {
    "/"@ + segment_encoded(process) + STYLES@
}

/// The path of a file's module route.
pub open spec fn file_route_path(file: Seq<char>) -> Seq<char> {
    MODULE_PREFIX@ + path_encoded(file)
}

/// The URL a prewarm pane is pointed at.
pub fn warm_url() -> (url: String)
    ensures
        url@ == ORIGIN@ + "/"@ + WARM@,
{
    let mut out: Vec<char> = Vec::new();
    push_str(&mut out, ORIGIN);
    push_str(&mut out, "/");
    push_str(&mut out, WARM);
    string_of(&out)
}

/// The URL a process's shell is loaded from.
pub fn shell_url(process: &str) -> (url: String)
    ensures
        url@ == ORIGIN@ + shell_path(process@),
{
    let encoded = encode_segment(process);
    let mut out: Vec<char> = Vec::new();
    push_str(&mut out, ORIGIN);
    push_str(&mut out, "/");
    push_str(&mut out, encoded.as_str());
    assert(out@ =~= ORIGIN@ + shell_path(process@));
    string_of(&out)
}

/// The URL a process's shell links its stylesheet from.
pub fn styles_url(process: &str) -> (url: String)
    ensures
        url@ == ORIGIN@ + styles_path(process@),
{
    let encoded = encode_segment(process);
    let mut out: Vec<char> = Vec::new();
    push_str(&mut out, ORIGIN);
    push_str(&mut out, "/");
    push_str(&mut out, encoded.as_str());
    push_str(&mut out, STYLES);
    assert(out@ =~= ORIGIN@ + styles_path(process@));
    string_of(&out)
}

/// The canonical URL of a file: each segment of its path encoded, the
/// separators kept.
pub fn module_url(path: &str) -> (url: String)
    ensures
        url@ == ORIGIN@ + file_route_path(path@),
{
    let encoded = encode_path(path);
    let mut out: Vec<char> = Vec::new();
    push_str(&mut out, ORIGIN);
    push_str(&mut out, MODULE_PREFIX);
    push_str(&mut out, encoded.as_str());
    assert(out@ =~= ORIGIN@ + file_route_path(path@));
    string_of(&out)
}

/// A module URL routes back to the very file it was built from, for every
/// absolute path.
pub proof fn module_urls_route_to_their_file(file: Seq<char>)
    requires
        file.len() > 0,
        file[0] == '/',
    ensures
        route_of(file_route_path(file)) == RouteView::Module(file),
{
    reveal_strlit("/mod");
    path_encoding_keeps_the_leading_slash(file);
    decoding_undoes_encoding(file, true);
    let path = file_route_path(file);
    assert(path.subrange(0, 4) =~= MODULE_PREFIX@);
    assert(path[4] == path_encoded(file)[0]);
    assert(path.skip(4) =~= path_encoded(file));
}

/// The two words a process id cannot be read back from: `mod` and `warm`
/// encode to themselves.
proof fn lemma_reserved_words()
    ensures
        segment_encoded("mod"@) == "mod"@,
        segment_encoded("warm"@) == "warm"@,
        percent_decoded("mod"@) == "mod"@,
        percent_decoded("warm"@) == "warm"@,
{
    reveal_strlit("mod");
    reveal_strlit("warm");
    crate::url::unreserved_text_encodes_to_itself("mod"@);
    crate::url::unreserved_text_encodes_to_itself("warm"@);
    decoding_undoes_encoding("mod"@, false);
    decoding_undoes_encoding("warm"@, false);
}

/// A stylesheet URL routes back to its process, for every non-empty process
/// id but `mod` (whose stylesheet path reads as the module path `/styles.css`).
pub proof fn styles_urls_route_to_their_process(process: Seq<char>)
    requires
        process.len() > 0,
        process != "mod"@,
    ensures
        route_of(styles_path(process)) == RouteView::Styles(process),
{
    reveal_strlit("/mod");
    reveal_strlit("/styles.css");
    reveal_strlit("warm");
    reveal_strlit("mod");
    reveal_strlit("/");
    let e = segment_encoded(process);
    crate::url::segment_encoding_has_no_slash(process);
    decoding_undoes_encoding(process, false);
    lemma_reserved_words();
    let path = styles_path(process);
    assert(path =~= seq!['/'] + e + STYLES@);
    // Not a module route.
    if starts_with(path, MODULE_PREFIX@) && path.len() > 4 && path[4] == '/' {
        if e.len() >= 4 {
            assert(path[4] == e[3]);
        } else if e.len() == 3 {
            assert(e =~= path.subrange(1, 4));
            assert(path.subrange(0, 4)[1] == path[1]);
            assert(path.subrange(0, 4)[2] == path[2]);
            assert(path.subrange(0, 4)[3] == path[3]);
            assert(path.subrange(1, 4) =~= "mod"@);
        } else if e.len() == 2 {
            assert(path[3] == '/');
            assert(path.subrange(0, 4)[3] == 'd');
        } else {
            assert(path[2] == '/');
            assert(path.subrange(0, 4)[2] == 'o');
        }
    }
    assert(path.skip(1) =~= e + STYLES@);
    assert(e[0] != '/');
    assert(trim_slashes(path) == trim_slashes(path.skip(1)));
    let rest = e + STYLES@;
    assert(trim_slashes(rest) == rest);
    assert(rest.subrange(rest.len() - 11, rest.len() as int) =~= STYLES@);
    assert(rest.take(rest.len() - 11) =~= e);
    assert(rest != WARM@) by {
        assert(rest.len() != WARM@.len());
    }
}

/// A shell URL routes back to its process, for every non-empty process id
/// but `warm`, the warm page's own path.
pub proof fn shell_urls_route_to_their_process(process: Seq<char>)
    requires
        process.len() > 0,
        process != "warm"@,
    ensures
        route_of(shell_path(process)) == RouteView::Shell(process),
{
    reveal_strlit("/mod");
    reveal_strlit("/styles.css");
    reveal_strlit("warm");
    reveal_strlit("/");
    let e = segment_encoded(process);
    crate::url::segment_encoding_has_no_slash(process);
    decoding_undoes_encoding(process, false);
    lemma_reserved_words();
    let path = shell_path(process);
    assert(path =~= seq!['/'] + e);
    if starts_with(path, MODULE_PREFIX@) && path.len() > 4 && path[4] == '/' {
        assert(path[4] == e[3]);
    }
    assert(path.skip(1) =~= e);
    assert(e[0] != '/');
    assert(trim_slashes(path) == trim_slashes(path.skip(1)));
    assert(trim_slashes(e) == e);
    if ends_with(e, STYLES@) {
        assert(e[e.len() - 11] == STYLES@[0]);
    }
}

/// The warm URL routes to the warm page.
pub proof fn the_warm_url_routes_to_the_warm_page()
    ensures
        route_of("/"@ + WARM@) == RouteView::Warm,
{
    reveal_strlit("/mod");
    reveal_strlit("warm");
    reveal_strlit("/");
    let path = "/"@ + WARM@;
    assert(!starts_with(path, MODULE_PREFIX@)) by {
        assert(path[1] == 'w');
        if path.len() >= 4 {
            assert(path.subrange(0, 4)[1] == path[1]);
        }
    }
    assert(path.skip(1) =~= WARM@);
    assert(trim_slashes(path) == trim_slashes(path.skip(1)));
    assert(trim_slashes(WARM@) == WARM@);
}

/// `&`, `"` and `<` written as entities, so a value can stand in a quoted
/// attribute.
pub open spec fn attribute_escaped(value: Seq<char>) -> Seq<char> {
    replaced(replaced(replaced(value, "&"@, "&amp;"@), "\""@, "&quot;"@), "<"@, "&lt;"@)
}

/// Escapes a value for a double-quoted HTML attribute.
pub fn escape_attribute(value: &str) -> (r: String)
    ensures
        r@ == attribute_escaped(value@),
{
    proof {
        reveal_strlit("&");
        reveal_strlit("\"");
        reveal_strlit("<");
    }
    let a = replace_str(value, "&", "&amp;");
    let b = replace_str(a.as_str(), "\"", "&quot;");
    replace_str(b.as_str(), "<", "&lt;")
}

/// The shell page: a charset, the one stylesheet, a line that reads the
/// page's identity off its own URL, the program's entry as a module, and an
/// empty body.
pub open spec fn shell_page(styles_url: Seq<char>, entry_url: Seq<char>) -> Seq<char> {
    "<!doctype html>\n<html><head><meta charset=\"utf-8\">\n<link rel=\"stylesheet\" href=\""@
        + attribute_escaped(styles_url) + "\">\n<script>window."@ + PROCESS_GLOBAL@
        + " = decodeURIComponent(location.pathname.slice(1));</script>\n<script type=\"module\" src=\""@
        + attribute_escaped(entry_url) + "\"></script>\n</head><body></body></html>"@
}

/// The shell: no root element (the program mounts the body) and no inline
/// style (every rule arrives through the one link). Identity is read off the
/// page's URL, so the same text serves every process.
pub fn shell(styles_url: &str, entry_url: &str) -> (page: String)
    ensures
        page@ == shell_page(styles_url@, entry_url@),
{
    let styles = escape_attribute(styles_url);
    let entry = escape_attribute(entry_url);
    let mut out: Vec<char> = Vec::new();
    push_str(&mut out, "<!doctype html>\n<html><head><meta charset=\"utf-8\">\n<link rel=\"stylesheet\" href=\"");
    push_str(&mut out, styles.as_str());
    push_str(&mut out, "\">\n<script>window.");
    push_str(&mut out, PROCESS_GLOBAL);
    push_str(&mut out, " = decodeURIComponent(location.pathname.slice(1));</script>\n<script type=\"module\" src=\"");
    push_str(&mut out, entry.as_str());
    push_str(&mut out, "\"></script>\n</head><body></body></html>");
    string_of(&out)
}

/// A request answered: the status, what it is, and the bytes.
#[derive(Debug, Clone, PartialEq)]
pub struct Served {
    pub status: u16,
    pub mime: &'static str,
    pub body: Vec<u8>,
}

/// `served` answers with `status`, as `mime`, the UTF-8 bytes of `text`.
pub open spec fn serves(served: Served, status: u16, mime: Seq<char>, text: Seq<char>) -> bool {
    served.status == status && served.mime@ == mime && served.body@ == encode_utf8(text)
}

/// The module that reports a failure in the webview's console and throws.
pub open spec fn failure_script(what: Seq<char>, message: Seq<char>) -> Seq<char> {
    "console.error("@ + json_quoted("ol: "@ + what + "\n"@ + message) + ");\nthrow new Error("@
        + json_quoted(what) + ");\n"@
}

/// The body of a refusal.
pub open spec fn missing_text(what: Seq<char>) -> Seq<char> {
    "ol: no "@ + what
}

/// The stylesheet that carries a compile failure as a comment.
pub open spec fn unstyled_sheet(what: Seq<char>, message: Seq<char>) -> Seq<char> {
    "/* ol: "@ + what + "\n"@ + message + " */\n"@
}

fn text_bytes(chars: &Vec<char>) -> (bytes: Vec<u8>)
    ensures
        bytes@ == encode_utf8(chars@),
{
    let text = string_of(chars);
    text.as_str().as_bytes_vec()
}

impl Served {
    pub fn ok(mime: &'static str, body: Vec<u8>) -> (served: Served)
        ensures
            served.status == 200,
            served.mime == mime,
            served.body == body,
    {
        Served { status: 200, mime, body }
    }

    /// A failure a program can see, delivered as a module that throws, so the
    /// message lands in the webview's console with the file that caused it.
    pub fn broken(what: &str, message: &str) -> (served: Served)
        ensures
            serves(served, 200, "text/javascript"@, failure_script(what@, message@)),
    {
        let mut report: Vec<char> = Vec::new();
        push_str(&mut report, "ol: ");
        push_str(&mut report, what);
        push_str(&mut report, "\n");
        push_str(&mut report, message);
        let report = string_of(&report);
        let logged = json_string(report.as_str());
        let thrown = json_string(what);
        let mut out: Vec<char> = Vec::new();
        push_str(&mut out, "console.error(");
        push_str(&mut out, logged.as_str());
        push_str(&mut out, ");\nthrow new Error(");
        push_str(&mut out, thrown.as_str());
        push_str(&mut out, ");\n");
        proof {
            assert(report@ =~= "ol: "@ + what@ + "\n"@ + message@);
        }
        assert(out@ =~= failure_script(what@, message@));
        Served { status: 200, mime: "text/javascript", body: text_bytes(&out) }
    }

    /// A refusal: nothing here by that name.
    pub fn missing(what: &str) -> (served: Served)
        ensures
            serves(served, 404, "text/plain"@, missing_text(what@)),
    {
        let mut out: Vec<char> = Vec::new();
        push_str(&mut out, "ol: no ");
        push_str(&mut out, what);
        Served { status: 404, mime: "text/plain", body: text_bytes(&out) }
    }

    /// A stylesheet that did not compile, still served as CSS so the page
    /// stays legible enough to read the failure on.
    pub fn unstyled(what: &str, message: &str) -> (served: Served)
        ensures
            serves(served, 200, "text/css"@, unstyled_sheet(what@, message@)),
    {
        let mut out: Vec<char> = Vec::new();
        push_str(&mut out, "/* ol: ");
        push_str(&mut out, what);
        push_str(&mut out, "\n");
        push_str(&mut out, message);
        push_str(&mut out, " */\n");
        assert(out@ =~= unstyled_sheet(what@, message@));
        Served { status: 200, mime: "text/css", body: text_bytes(&out) }
    }
}

/// What std's `Path::starts_with` answers: whether `base`'s components are a
/// prefix of `path`'s.
pub uninterp spec fn path_within(path: Seq<char>, base: Seq<char>) -> bool;

/// What std's `Path::parent` answers, written back as a string: the path
/// without its last component, or nothing for a root or an empty path.
pub uninterp spec fn parent_of(path: Seq<char>) -> Option<Seq<char>>;

/// std's `Path::starts_with` on two paths given as strings; the contract names
/// the answer, a function of the two paths, by `path_within`.
#[verifier::external_body]
fn path_starts_with(path: &str, base: &str) -> (within: bool)
    ensures
        within == path_within(path@, base@),
{
    std::path::Path::new(path).starts_with(base)
}

/// std's `Path::parent` on a path given as a string; the contract names the
/// answer, a function of the path, by `parent_of`.
#[verifier::external_body]
fn path_parent(path: &str) -> (parent: Option<String>)
    ensures
        parent matches Some(p) ==> parent_of(path@) == Some(p@),
        parent is None ==> parent_of(path@) is None,
{
    match std::path::Path::new(path).parent() {
        Some(dir) => Some(dir.to_string_lossy().into_owned()),
        None => None,
    }
}

/// What a request resolves to before anything is read: the whole answer (a
/// shell, a refusal), the file a module request names, the directory a
/// stylesheet is compiled from, or the entry a warm page is built for.
#[derive(Debug, Clone, PartialEq)]
pub enum Answer {
    Ready(Served),
    Module(String),
    Styles(String),
    Warm(String),
}

/// `answer` is a refusal naming `what`.
pub open spec fn refuses(answer: Answer, what: Seq<char>) -> bool {
    answer matches Answer::Ready(served) && serves(served, 404, "text/plain"@, missing_text(what))
}

/// Reads one request for one webview. `process` and `entry` are that
/// webview's own: a shell and a stylesheet are served only to the process
/// they belong to. `root` bounds the files a module request may name; the
/// named file is returned as asked for, and `located` settles whether it
/// exists.
pub fn respond(root: &str, process: &str, entry: &str, uri_path: &str) -> (answer: Answer)
    ensures
        match route_of(uri_path@) {
            RouteView::Shell(who) => if who == process@ {
                answer matches Answer::Ready(served) && serves(
                    served,
                    200,
                    "text/html"@,
                    shell_page(ORIGIN@ + styles_path(process@), ORIGIN@ + file_route_path(entry@)),
                )
            } else {
                refuses(answer, "shell for "@ + who)
            },
            RouteView::Styles(who) => if who == process@ {
                match parent_of(entry@) {
                    Some(dir) => answer matches Answer::Styles(d) && d@ == dir,
                    None => refuses(answer, "source tree for the stylesheet"@),
                }
            } else {
                refuses(answer, "stylesheet for "@ + who)
            },
            RouteView::Module(path) => if path_within(path, root@) {
                answer matches Answer::Module(file) && file@ == path
            } else {
                refuses(answer, "module outside "@ + root@ + ": "@ + path)
            },
            RouteView::Warm => answer matches Answer::Warm(e) && e@ == entry@,
            RouteView::Unknown => refuses(answer, "route"@),
        },
{
    let mine = process.to_owned();
    match route(uri_path) {
        Route::Shell(who) => {
            if who == mine {
                let page = shell(styles_url(process).as_str(), module_url(entry).as_str());
                let page_chars = chars_of(page.as_str());
                Answer::Ready(Served::ok("text/html", text_bytes(&page_chars)))
            } else {
                let mut what: Vec<char> = Vec::new();
                push_str(&mut what, "shell for ");
                push_str(&mut what, who.as_str());
                Answer::Ready(Served::missing(string_of(&what).as_str()))
            }
        },
        Route::Styles(who) => {
            if who == mine {
                match path_parent(entry) {
                    Some(dir) => Answer::Styles(dir),
                    None => Answer::Ready(Served::missing("source tree for the stylesheet")),
                }
            } else {
                let mut what: Vec<char> = Vec::new();
                push_str(&mut what, "stylesheet for ");
                push_str(&mut what, who.as_str());
                Answer::Ready(Served::missing(string_of(&what).as_str()))
            }
        },
        Route::Module(path) => {
            if path_starts_with(path.as_str(), root) {
                Answer::Module(path)
            } else {
                let mut what: Vec<char> = Vec::new();
                push_str(&mut what, "module outside ");
                push_str(&mut what, root);
                push_str(&mut what, ": ");
                push_str(&mut what, path.as_str());
                Answer::Ready(Served::missing(string_of(&what).as_str()))
            }
        },
        Route::Warm => Answer::Warm(entry.to_owned()),
        Route::Unknown => Answer::Ready(Served::missing("route")),
    }
}

/// Settles a module request once the file it names has been looked for:
/// the file found, or a refusal naming the request.
pub fn located(requested: &str, found: Option<String>) -> (answer: Answer)
    ensures
        match found {
            Some(file) => answer matches Answer::Module(f) && f@ == file@,
            None => refuses(answer, "module "@ + requested@),
        },
{
    match found {
        Some(file) => Answer::Module(file),
        None => {
            let mut what: Vec<char> = Vec::new();
            push_str(&mut what, "module ");
            push_str(&mut what, requested);
            Answer::Ready(Served::missing(string_of(&what).as_str()))
        },
    }
}

/// The directory packages are installed under.
pub const PACKAGES: &'static str = "node_modules";

/// `path` has a component named `name`: a run between separators (or the
/// path's ends) that is exactly `name`.
pub open spec fn has_component(path: Seq<char>, name: Seq<char>) -> bool {
    exists|i: int|
        #![trigger occurs_at(path, i, name)]
        occurs_at(path, i, name) && (i == 0 || path[i - 1] == '/') && (i + name.len() == path.len()
            || path[i + name.len()] == '/')
}

/// Whether `path` has a component named `name`.
pub fn has_component_exec(path: &str, name: &str) -> (r: bool)
    ensures
        r == has_component(path@, name@),
{
    let p = chars_of(path);
    let n = chars_of(name);
    let mut i: usize = 0;
    while i < p.len()
        invariant
            i <= p@.len(),
            p@ == path@,
            n@ == name@,
            forall|j: int|
                0 <= j < i ==> !(#[trigger] occurs_at(p@, j, n@) && (j == 0 || p@[j - 1] == '/') && (j
                    + n@.len() == p@.len() || p@[j + n@.len()] == '/')),
        decreases p.len() - i,
    {
        if occurs_at_exec(&p, i, &n) {
            let before = i == 0 || p[i - 1] == '/';
            let after = i + n.len() == p.len() || p[i + n.len()] == '/';
            if before && after {
                return true;
            }
        }
        i = i + 1;
    }
    if occurs_at_exec(&p, i, &n) && (i == 0 || p[i - 1] == '/') {
        return true;
    }
    assert forall|j: int|
        occurs_at(p@, j, n@) implies !((j == 0 || p@[j - 1] == '/') && (j + n@.len() == p@.len()
            || p@[j + n@.len()] == '/')) by {
        assert(0 <= j <= p@.len());
    }
    false
}

/// The module URLs of the files among the first `n` that are (or are not)
/// inside a package, in the order given.
pub open spec fn urls_where(files: Seq<String>, package: bool, n: int) -> Seq<Seq<char>>
    decreases n,
{
    if n <= 0 {
        Seq::empty()
    } else {
        let rest = urls_where(files, package, n - 1);
        if has_component(files[n - 1]@, PACKAGES@) == package {
            rest.push(ORIGIN@ + file_route_path(files[n - 1]@))
        } else {
            rest
        }
    }
}

/// One `modulepreload` link per URL.
pub open spec fn preload_links(urls: Seq<Seq<char>>) -> Seq<char>
    decreases urls.len(),
{
    if urls.len() == 0 {
        Seq::empty()
    } else {
        preload_links(urls.drop_last()) + "<link rel=\"modulepreload\" href=\""@
            + attribute_escaped(urls.last()) + "\">\n"@
    }
}

/// One bare `import` statement per URL.
pub open spec fn import_lines(urls: Seq<Seq<char>>) -> Seq<char>
    decreases urls.len(),
{
    if urls.len() == 0 {
        Seq::empty()
    } else {
        import_lines(urls.drop_last()) + "import "@ + json_quoted(urls.last()) + ";\n"@
    }
}

/// The warm page for a program's files: its own files preloaded, package
/// files imported, each group in URL order.
pub open spec fn warm_page_of(files: Seq<String>) -> Seq<char> {
    "<!doctype html>\n<html><head><meta charset=\"utf-8\">\n"@ + preload_links(
        sorted_texts(urls_where(files, false, files.len() as int)),
    ) + "<script type=\"module\">\n"@ + import_lines(
        sorted_texts(urls_where(files, true, files.len() as int)),
    ) + "</script>\n</head><body></body></html>"@
}

/// The URL a file contributes to the `package` group, if any.
pub open spec fn url_in(file: String, package: bool) -> Option<Seq<char>> {
    if has_component(file@, PACKAGES@) == package {
        Some(ORIGIN@ + file_route_path(file@))
    } else {
        None
    }
}

proof fn lemma_urls_prefix(a: Seq<String>, b: Seq<String>, package: bool, n: int)
    requires
        0 <= n <= a.len(),
        n <= b.len(),
        forall|i: int| 0 <= i < n ==> a[i] == b[i],
    ensures
        urls_where(a, package, n) == urls_where(b, package, n),
    decreases n,
{
    if n > 0 {
        lemma_urls_prefix(a, b, package, n - 1);
    }
}

/// Taking file `j` out of the list takes its URL (if it has one in the
/// group) out of the group.
proof fn lemma_urls_remove(b: Seq<String>, j: int, package: bool)
    requires
        0 <= j < b.len(),
    ensures
        urls_where(b, package, b.len() as int).to_multiset() == match url_in(b[j], package) {
            Some(u) => urls_where(b.remove(j), package, b.len() - 1).to_multiset().insert(u),
            None => urls_where(b.remove(j), package, b.len() - 1).to_multiset(),
        },
    decreases b.len(),
{
    broadcast use vstd::seq_lib::group_to_multiset_ensures;
    let n = b.len() as int;
    let r = b.remove(j);
    if j == n - 1 {
        lemma_urls_prefix(b, r, package, n - 1);
    } else {
        let d = b.drop_last();
        lemma_urls_remove(d, j, package);
        let rd = d.remove(j);
        assert(rd =~= r.drop_last());
        lemma_urls_prefix(b, d, package, n - 1);
        lemma_urls_prefix(r, rd, package, n - 2);
        assert(r[n - 2] == b[n - 1]);
        assert(d[j] == b[j]);
        let ub = urls_where(b, package, n);
        let ud = urls_where(d, package, n - 1);
        let ur = urls_where(r, package, n - 1);
        let urd = urls_where(rd, package, n - 2);
        match url_in(b[n - 1], package) {
            Some(u) => {
                assert(ub == ud.push(u));
                assert(ur == urd.push(u));
                match url_in(b[j], package) {
                    Some(v) => {
                        assert(ud.to_multiset() == urd.to_multiset().insert(v));
                        assert(ub.to_multiset() =~= ur.to_multiset().insert(v));
                    },
                    None => {},
                }
            },
            None => {
                assert(ub == ud);
                assert(ur == urd);
            },
        }
    }
}

/// Files that are the same up to order have groups that are the same up to
/// order.
proof fn lemma_urls_permuted(a: Seq<String>, b: Seq<String>, package: bool)
    requires
        a.to_multiset() == b.to_multiset(),
    ensures
        urls_where(a, package, a.len() as int).to_multiset() == urls_where(b, package, b.len() as int).to_multiset(),
    decreases a.len(),
{
    broadcast use vstd::seq_lib::group_to_multiset_ensures;
    if a.len() == 0 {
        assert(a.to_multiset().len() == a.len() && b.to_multiset().len() == b.len());
        assert(b.len() == 0);
        assert(urls_where(b, package, 0) =~= Seq::<Seq<char>>::empty());
    } else {
        let x = a.last();
        let d = a.drop_last();
        assert(a =~= d.push(x));
        assert(a.to_multiset() =~= d.to_multiset().insert(x));
        assert(b.to_multiset().count(x) > 0);
        assert(b.contains(x));
        let j = choose|j: int| 0 <= j < b.len() && b[j] == x;
        let r = b.remove(j);
        assert(r.to_multiset() =~= b.to_multiset().remove(x));
        assert(d.to_multiset() =~= r.to_multiset());
        lemma_urls_permuted(d, r, package);
        lemma_urls_remove(b, j, package);
        lemma_urls_prefix(a, d, package, a.len() - 1);
    }
}

/// The warm page depends on the set of files, not on their order.
pub proof fn the_warm_page_ignores_file_order(files: Seq<String>, reordered: Seq<String>)
    requires
        files.to_multiset() == reordered.to_multiset(),
    ensures
        warm_page_of(files) == warm_page_of(reordered),
{
    broadcast use vstd::seq_lib::group_to_multiset_ensures;
    assert(files.to_multiset().len() == files.len() && reordered.to_multiset().len() == reordered.len());
    lemma_urls_permuted(files, reordered, false);
    lemma_urls_permuted(files, reordered, true);
    let (a, b) = (urls_where(files, false, files.len() as int), urls_where(reordered, false, reordered.len() as int));
    sorted_texts_sorts(b);
    sorted_is_sorted_texts(sorted_texts(b), a);
    let (c, d) = (urls_where(files, true, files.len() as int), urls_where(reordered, true, reordered.len() as int));
    sorted_texts_sorts(d);
    sorted_is_sorted_texts(sorted_texts(d), c);
}

/// The prewarm page: makes a program's open cheap without ever running it.
/// Package modules are imported (a library at module scope is inert); the
/// program's own files are only preloaded, fetched and compiled but never
/// executed. No identity is stamped and no stylesheet linked.
pub fn warm_page(files: &Vec<String>) -> (page: String)
    ensures
        page@ == warm_page_of(files@),
{
    let mut own: Vec<String> = Vec::new();
    let mut packages: Vec<String> = Vec::new();
    let mut i: usize = 0;
    assert(views(own@) =~= Seq::<Seq<char>>::empty());
    assert(views(packages@) =~= Seq::<Seq<char>>::empty());
    while i < files.len()
        invariant
            i <= files@.len(),
            views(own@) == urls_where(files@, false, i as int),
            views(packages@) == urls_where(files@, true, i as int),
        decreases files.len() - i,
    {
        let url = module_url(files[i].as_str());
        if has_component_exec(files[i].as_str(), PACKAGES) {
            let ghost before = views(packages@);
            packages.push(url);
            assert(views(packages@) =~= before.push(url@));
        } else {
            let ghost before = views(own@);
            own.push(url);
            assert(views(own@) =~= before.push(url@));
        }
        i = i + 1;
    }
    let own = sort_texts(&own);
    let packages = sort_texts(&packages);
    let mut out: Vec<char> = Vec::new();
    push_str(&mut out, "<!doctype html>\n<html><head><meta charset=\"utf-8\">\n");
    let ghost head = out@;
    let mut k: usize = 0;
    while k < own.len()
        invariant
            k <= own@.len(),
            out@ == head + preload_links(views(own@).take(k as int)),
        decreases own.len() - k,
    {
        let escaped = escape_attribute(own[k].as_str());
        push_str(&mut out, "<link rel=\"modulepreload\" href=\"");
        push_str(&mut out, escaped.as_str());
        push_str(&mut out, "\">\n");
        proof {
            assert(views(own@).take(k + 1).drop_last() =~= views(own@).take(k as int));
        }
        k = k + 1;
    }
    assert(views(own@).take(k as int) =~= views(own@));
    push_str(&mut out, "<script type=\"module\">\n");
    let ghost middle = out@;
    let mut m: usize = 0;
    while m < packages.len()
        invariant
            m <= packages@.len(),
            out@ == middle + import_lines(views(packages@).take(m as int)),
        decreases packages.len() - m,
    {
        let quoted = json_string(packages[m].as_str());
        push_str(&mut out, "import ");
        push_str(&mut out, quoted.as_str());
        push_str(&mut out, ";\n");
        proof {
            assert(views(packages@).take(m + 1).drop_last() =~= views(packages@).take(m as int));
        }
        m = m + 1;
    }
    assert(views(packages@).take(m as int) =~= views(packages@));
    push_str(&mut out, "</script>\n</head><body></body></html>");
    assert(out@ =~= warm_page_of(files@));
    string_of(&out)
}

/// Where `needle` first occurs in `s`, if it does.
pub open spec fn first_occurrence(s: Seq<char>, needle: Seq<char>) -> Option<int> {
    first_where(s.len() + 1 as int, |i: int| occurs_at(s, i, needle))
}

/// Where the first `"` of `s` stands, or the end of `s`.
pub open spec fn quote_end(s: Seq<char>) -> int {
    match first_occurrence(s, seq!['"']) {
        Some(i) => i,
        None => s.len() as int,
    }
}

/// Every run up to the next `"` (or the end) that follows an occurrence of
/// `anchor` in `s`, scanning on from the end of each run.
pub open spec fn quoted_after(s: Seq<char>, anchor: Seq<char>) -> Seq<Seq<char>>
    decreases s.len(),
{
    if anchor.len() == 0 {
        Seq::empty()
    } else {
        match first_occurrence(s, anchor) {
            None => Seq::empty(),
            Some(at) => {
                let rest = s.skip(at + anchor.len());
                let end = quote_end(rest);
                if 0 <= at && at + anchor.len() <= s.len() && 0 <= end <= rest.len() {
                    seq![rest.take(end)] + quoted_after(rest.skip(end), anchor)
                } else {
                    Seq::empty()
                }
            },
        }
    }
}

/// The three ways a transpiled module names what it imports.
pub open spec fn import_anchors() -> Seq<Seq<char>> {
    seq!["from \""@, "import \""@, "import(\""@]
}

/// Every double-quoted string that follows an import keyword, anchor by
/// anchor.
pub open spec fn specifiers_of(code: Seq<char>) -> Seq<Seq<char>> {
    quoted_after(code, "from \""@) + quoted_after(code, "import \""@) + quoted_after(
        code,
        "import(\""@,
    )
}

proof fn lemma_occurs_skip(s: Seq<char>, from: int, k: int, needle: Seq<char>)
    requires
        0 <= from <= s.len(),
        0 <= k,
    ensures
        occurs_at(s.skip(from), k, needle) == occurs_at(s, from + k, needle),
{
    if occurs_at(s.skip(from), k, needle) {
        assert(s.skip(from).subrange(k, k + needle.len()) =~= s.subrange(from + k, from + k + needle.len()));
    }
    if occurs_at(s, from + k, needle) && k >= 0 {
        assert(s.skip(from).subrange(k, k + needle.len()) =~= s.subrange(from + k, from + k + needle.len()));
    }
}

/// `find_from` in `s` from `from` is the first occurrence in `s.skip(from)`.
proof fn lemma_find_skip(s: Seq<char>, from: int, needle: Seq<char>, found: Option<usize>)
    requires
        0 <= from <= s.len(),
        match found {
            Some(i) => from <= i && occurs_at(s, i as int, needle) && forall|j: int|
                from <= j < i ==> !occurs_at(s, j, needle),
            None => forall|j: int| from <= j ==> !occurs_at(s, j, needle),
        },
    ensures
        match found {
            Some(i) => first_occurrence(s.skip(from), needle) == Some(i - from),
            None => first_occurrence(s.skip(from), needle) is None,
        },
{
    let t = s.skip(from);
    let p = |i: int| occurs_at(t, i, needle);
    match found {
        Some(i) => {
            let k = i - from;
            lemma_occurs_skip(s, from, k, needle);
            assert(p(k));
            assert(k < t.len() + 1) by {
                assert(i + needle.len() <= s.len());
            }
            lemma_first_where(p, t.len() + 1 as int);
            match first_where(t.len() + 1 as int, p) {
                Some(m) => {
                    lemma_occurs_skip(s, from, m, needle);
                    if m < k {
                        assert(!occurs_at(s, from + m, needle));
                    }
                    assert(!(k < m));
                },
                None => {
                    assert(!p(k));
                },
            }
        },
        None => {
            lemma_first_where(p, t.len() + 1 as int);
            if first_where(t.len() + 1 as int, p) is Some {
                let m = first_where(t.len() + 1 as int, p)->0;
                lemma_occurs_skip(s, from, m, needle);
            }
        },
    }
}

/// Appends every run following `anchor` in `code` to `out`.
fn push_quoted_after(out: &mut Vec<String>, code: &Vec<char>, anchor: &Vec<char>)
    requires
        anchor@.len() > 0,
    ensures
        views(final(out)@) == views(old(out)@) + quoted_after(code@, anchor@),
{
    let quote = vec!['"'];
    assert(quote@ =~= seq!['"']);
    let mut pos: usize = 0;
    assert(code@.skip(0) =~= code@);
    while pos <= code.len()
        invariant
            pos <= code@.len(),
            anchor@.len() > 0,
            quote@ == seq!['"'],
            views(old(out)@) + quoted_after(code@, anchor@) == views(out@) + quoted_after(
                code@.skip(pos as int),
                anchor@,
            ),
        decreases code.len() - pos,
    {
        let found = find_from(code, pos, anchor);
        proof {
            lemma_find_skip(code@, pos as int, anchor@, found);
        }
        match found {
            None => {
                assert(quoted_after(code@.skip(pos as int), anchor@) =~= Seq::<Seq<char>>::empty());
                assert(views(out@) + Seq::<Seq<char>>::empty() =~= views(out@));
                return;
            },
            Some(at) => {
                let start = at + anchor.len();
                let close = find_from(code, start, &quote);
                proof {
                    lemma_find_skip(code@, start as int, quote@, close);
                    assert(code@.skip(pos as int).skip(at - pos + anchor@.len()) =~= code@.skip(start as int));
                }
                let end = match close {
                    Some(e) => e,
                    None => code.len(),
                };
                let run = slice(code, start, end);
                let text = string_of(&run);
                let ghost before = views(out@);
                out.push(text);
                proof {
                    let rest = code@.skip(start as int);
                    assert(quote_end(rest) == end - start);
                    assert(rest.take(end - start) =~= run@);
                    assert(rest.skip(end - start) =~= code@.skip(end as int));
                    assert(views(out@) =~= before.push(run@));
                    assert(quoted_after(code@.skip(pos as int), anchor@) =~= seq![run@]
                        + quoted_after(code@.skip(end as int), anchor@));
                    assert(before + (seq![run@] + quoted_after(code@.skip(end as int), anchor@))
                        =~= before.push(run@) + quoted_after(code@.skip(end as int), anchor@));
                }
                if end == code.len() {
                    proof {
                        assert(code@.skip(end as int) =~= Seq::<char>::empty());
                        assert(first_occurrence(Seq::<char>::empty(), anchor@) is None) by {
                            let p = |i: int| occurs_at(Seq::<char>::empty(), i, anchor@);
                            lemma_first_where(p, 1);
                        }
                        assert(quoted_after(code@.skip(end as int), anchor@) =~= Seq::<Seq<char>>::empty());
                        assert(views(out@) + Seq::<Seq<char>>::empty() =~= views(out@));
                    }
                    return;
                }
                pos = end;
            },
        }
    }
}

/// Every double-quoted string that follows an import keyword: the
/// transpiler writes imports double-quoted, one per statement.
pub fn quoted_specifiers(code: &str) -> (found: Vec<String>)
    ensures
        views(found@) == specifiers_of(code@),
{
    let text = chars_of(code);
    let mut out: Vec<String> = Vec::new();
    assert(views(out@) =~= Seq::<Seq<char>>::empty());
    proof {
        reveal_strlit("from \"");
        reveal_strlit("import \"");
        reveal_strlit("import(\"");
    }
    push_quoted_after(&mut out, &text, &chars_of("from \""));
    push_quoted_after(&mut out, &text, &chars_of("import \""));
    push_quoted_after(&mut out, &text, &chars_of("import(\""));
    out
}

/// What the warm crawl reads off one specifier of module `module`: an
/// `ol://` module URL is the file it names; a relative import joins the
/// module's directory; anything else is not followed.
pub open spec fn import_target(specifier: Seq<char>, module: Seq<char>) -> Option<Seq<char>> {
    let marker = ORIGIN@ + MODULE_PREFIX@;
    if starts_with(specifier, marker) {
        Some(percent_decoded(specifier.skip(marker.len() as int)))
    } else if starts_with(specifier, "./"@) || starts_with(specifier, "../"@) {
        match parent_of(module) {
            Some(dir) => Some(joined(dir, specifier)),
            None => None,
        }
    } else {
        None
    }
}

/// The files a list of specifiers leads to, in order.
pub open spec fn import_targets(specifiers: Seq<Seq<char>>, module: Seq<char>) -> Seq<Seq<char>>
    decreases specifiers.len(),
{
    if specifiers.len() == 0 {
        Seq::empty()
    } else {
        let rest = import_targets(specifiers.drop_last(), module);
        match import_target(specifiers.last(), module) {
            Some(file) => rest.push(file),
            None => rest,
        }
    }
}

/// The files a transpiled module pulls next, as the webview would fetch them.
pub fn module_imports(code: &str, module: &str) -> (files: Vec<String>)
    ensures
        views(files@) == import_targets(specifiers_of(code@), module@),
{
    let specifiers = quoted_specifiers(code);
    let marker_text = {
        let mut m: Vec<char> = Vec::new();
        push_str(&mut m, ORIGIN);
        push_str(&mut m, MODULE_PREFIX);
        m
    };
    let here = chars_of("./");
    let up = chars_of("../");
    let parent = path_parent(module);
    let mut out: Vec<String> = Vec::new();
    let mut i: usize = 0;
    assert(views(out@) =~= Seq::<Seq<char>>::empty());
    while i < specifiers.len()
        invariant
            i <= specifiers@.len(),
            marker_text@ == ORIGIN@ + MODULE_PREFIX@,
            here@ == "./"@,
            up@ == "../"@,
            parent matches Some(p) ==> parent_of(module@) == Some(p@),
            parent is None ==> parent_of(module@) is None,
            views(out@) == import_targets(views(specifiers@).take(i as int), module@),
        decreases specifiers.len() - i,
    {
        let spec = chars_of(specifiers[i].as_str());
        let ghost before = views(out@);
        proof {
            assert(views(specifiers@).take(i + 1).drop_last() =~= views(specifiers@).take(i as int));
            assert(views(specifiers@).take(i + 1).last() == spec@);
        }
        if starts_with_exec(&spec, &marker_text) {
            let rest = slice(&spec, marker_text.len(), spec.len());
            let file = percent_decode(string_of(&rest).as_str());
            out.push(file);
            assert(rest@ =~= spec@.skip(marker_text@.len() as int));
            assert(views(out@) =~= before.push(file@));
        } else if starts_with_exec(&spec, &here) || starts_with_exec(&spec, &up) {
            match &parent {
                Some(dir) => {
                    let file = join_path(dir.as_str(), specifiers[i].as_str());
                    out.push(file);
                    assert(views(out@) =~= before.push(file@));
                },
                None => {},
            }
        }
        i = i + 1;
    }
    assert(views(specifiers@).take(i as int) =~= views(specifiers@));
    out
}

/// What std's `Path::file_name` answers, written back as a string.
pub uninterp spec fn file_name_of(path: Seq<char>) -> Option<Seq<char>>;

/// std's `Path::file_name` on a path given as a string; the contract names the
/// answer, a function of the path, by `file_name_of`.
#[verifier::external_body]
fn path_file_name(path: &str) -> (name: Option<String>)
    ensures
        name matches Some(n) ==> file_name_of(path@) == Some(n@),
        name is None ==> file_name_of(path@) is None,
{
    match std::path::Path::new(path).file_name() {
        Some(n) => Some(n.to_string_lossy().into_owned()),
        None => None,
    }
}

/// What an extensionless import may mean, in the order tried: the same name
/// with each script extension beside it, then an index file inside it.
pub open spec fn candidates_of(path: Seq<char>) -> Option<Seq<Seq<char>>> {
    match (file_name_of(path), parent_of(path)) {
        (Some(name), Some(dir)) => Some(
            seq![
                joined(dir, name + ".ts"@),
                joined(dir, name + ".tsx"@),
                joined(dir, name + ".js"@),
                joined(dir, name + ".jsx"@),
                joined(dir, name + ".mjs"@),
                joined(path, "index.ts"@),
                joined(path, "index.tsx"@),
                joined(path, "index.js"@),
            ],
        ),
        _ => None,
    }
}

fn sibling(dir: &str, name: &str, extension: &str) -> (path: String)
    ensures
        path@ == joined(dir@, name@ + extension@),
{
    let mut file: Vec<char> = Vec::new();
    push_str(&mut file, name);
    push_str(&mut file, extension);
    join_path(dir, string_of(&file).as_str())
}

/// The files an import of `path` may mean when `path` itself is not a file,
/// in the order they are tried; `None` for a path with no file name or no
/// parent.
pub fn candidates(path: &str) -> (files: Option<Vec<String>>)
    ensures
        match files {
            Some(v) => candidates_of(path@) == Some(views(v@)),
            None => candidates_of(path@) is None,
        },
{
    let name = match path_file_name(path) {
        Some(n) => n,
        None => return None,
    };
    let dir = match path_parent(path) {
        Some(d) => d,
        None => return None,
    };
    let mut out: Vec<String> = Vec::new();
    out.push(sibling(dir.as_str(), name.as_str(), ".ts"));
    out.push(sibling(dir.as_str(), name.as_str(), ".tsx"));
    out.push(sibling(dir.as_str(), name.as_str(), ".js"));
    out.push(sibling(dir.as_str(), name.as_str(), ".jsx"));
    out.push(sibling(dir.as_str(), name.as_str(), ".mjs"));
    out.push(join_path(path, "index.ts"));
    out.push(join_path(path, "index.tsx"));
    out.push(join_path(path, "index.js"));
    let ghost expected = candidates_of(path@)->0;
    assert(views(out@) =~= expected);
    Some(out)
}

/// What std's `Path::extension` answers, written back as a string.
pub uninterp spec fn extension_of(path: Seq<char>) -> Option<Seq<char>>;

/// std's `Path::extension` on a path given as a string; the contract names the
/// answer, a function of the path, by `extension_of`.
#[verifier::external_body]
fn path_extension(path: &str) -> (extension: Option<String>)
    ensures
        extension matches Some(e) ==> extension_of(path@) == Some(e@),
        extension is None ==> extension_of(path@) is None,
{
    match std::path::Path::new(path).extension() {
        Some(e) => Some(e.to_string_lossy().into_owned()),
        None => None,
    }
}

/// A path's extension, lower-cased.
pub open spec fn extension_lower(path: Seq<char>) -> Option<Seq<char>> {
    match extension_of(path) {
        Some(e) => Some(lowercased(e)),
        None => None,
    }
}

fn extension(path: &str) -> (e: Option<String>)
    ensures
        match e {
            Some(x) => extension_lower(path@) == Some(x@),
            None => extension_lower(path@) is None,
        },
{
    match path_extension(path) {
        Some(x) => Some(to_lowercase(x.as_str())),
        None => None,
    }
}

/// The extensions the transpiler owns.
pub open spec fn transpiled_extension(e: Seq<char>) -> bool {
    e == "ts"@ || e == "tsx"@ || e == "js"@ || e == "jsx"@ || e == "mjs"@ || e == "cjs"@ || e
        == "json"@
}

/// Whether the transpiler owns a file; anything else is served as it lies.
pub fn transpiled(path: &str) -> (owned: bool)
    ensures
        owned == (extension_lower(path@) matches Some(e) && transpiled_extension(e)),
{
    match extension(path) {
        Some(e) => {
            let e = e.as_str();
            same_text(e, "ts") || same_text(e, "tsx") || same_text(e, "js") || same_text(e, "jsx")
                || same_text(e, "mjs") || same_text(e, "cjs") || same_text(e, "json")
        },
        None => false,
    }
}

/// The media type a file is served as, by its extension.
pub open spec fn mime_of(extension: Option<Seq<char>>) -> Seq<char> {
    match extension {
        Some(e) => if e == "css"@ {
            "text/css"@
        } else if e == "html"@ {
            "text/html"@
        } else if e == "json"@ {
            "application/json"@
        } else if e == "svg"@ {
            "image/svg+xml"@
        } else if e == "png"@ {
            "image/png"@
        } else if e == "woff2"@ {
            "font/woff2"@
        } else {
            "application/octet-stream"@
        },
        None => "application/octet-stream"@,
    }
}

/// Each listed extension, whatever its case in the path, is served with its
/// standard media type (css as text/css, html as text/html, json as
/// application/json, svg as image/svg+xml, png as image/png, woff2 as
/// font/woff2), and a file with any other extension or none as
/// application/octet-stream.
pub proof fn files_are_served_with_their_standard_media_type(path: Seq<char>)
    ensures
        extension_lower(path) == Some("css"@) ==> mime_of(extension_lower(path)) == "text/css"@,
        extension_lower(path) == Some("html"@) ==> mime_of(extension_lower(path)) == "text/html"@,
        extension_lower(path) == Some("json"@) ==> mime_of(extension_lower(path))
            == "application/json"@,
        extension_lower(path) == Some("svg"@) ==> mime_of(extension_lower(path)) == "image/svg+xml"@,
        extension_lower(path) == Some("png"@) ==> mime_of(extension_lower(path)) == "image/png"@,
        extension_lower(path) == Some("woff2"@) ==> mime_of(extension_lower(path)) == "font/woff2"@,
        (extension_lower(path) matches Some(e) && e != "css"@ && e != "html"@ && e != "json"@ && e
            != "svg"@ && e != "png"@ && e != "woff2"@) || extension_lower(path) is None
            ==> mime_of(extension_lower(path)) == "application/octet-stream"@,
{
    reveal_strlit("css");
    reveal_strlit("html");
    reveal_strlit("json");
    reveal_strlit("svg");
    reveal_strlit("png");
    reveal_strlit("woff2");
    assert("html"@.len() != "css"@.len());
    assert("json"@.len() != "css"@.len());
    assert("json"@[0] != "html"@[0]);
    assert("svg"@[0] != "css"@[0]);
    assert("png"@[0] != "css"@[0] && "png"@[0] != "svg"@[0]);
}

/// The media type a file is served as.
pub fn mime(path: &str) -> (kind: &'static str)
    ensures
        kind@ == mime_of(extension_lower(path@)),
{
    match extension(path) {
        Some(e) => {
            let e = e.as_str();
            if same_text(e, "css") {
                "text/css"
            } else if same_text(e, "html") {
                "text/html"
            } else if same_text(e, "json") {
                "application/json"
            } else if same_text(e, "svg") {
                "image/svg+xml"
            } else if same_text(e, "png") {
                "image/png"
            } else if same_text(e, "woff2") {
                "font/woff2"
            } else {
                "application/octet-stream"
            }
        },
        None => "application/octet-stream",
    }
}

} // verus!
