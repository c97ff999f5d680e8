//! What the host puts on a page: the script installed before the program's
//! own code runs (the ipc alias, the process's id, the webview's place in the
//! window), and the rim's stand-in page for a program that has no served
//! source yet.

use vstd::prelude::*;
use crate::json::{json_quoted, json_string};
use crate::serve::PROCESS_GLOBAL;
use crate::text::{push_str, replaced, replace_str, string_of};

verus! {

/// The stand-in page with its five placeholders still open.
pub const DEMO_TEMPLATE: &'static str = r#"<!doctype html>
<html><head><meta charset="utf-8"><style>
  html, body { margin: 0; height: 100%; background: transparent;
               font: 13px/1.5 -apple-system, system-ui, sans-serif; color: #1d1d1f; }
  .card { box-sizing: border-box; height: 100%; display: flex; flex-direction: column; gap: 4px;
          background: #ffffff; border-radius: 12px; padding: 16px 18px;
          box-shadow: 0 1px 1px rgba(0, 0, 0, 0.06), 0 3px 10px rgba(0, 0, 0, 0.05); }
  h1 { margin: 0; font-size: 16px; font-weight: 600; }
  .meta { color: #6e6e73; font-size: 12px; }
  .wire { margin-top: auto; font: 11px ui-monospace, monospace; color: #3a3a3c; white-space: pre-wrap; }
</style></head><body><div class="card">
  <h1>__PROGRAM__</h1>
  <div class="meta">process __PROCESS__</div>
  <div class="wire" id="wire">reaching the field…</div>
</div><script>
  const PROC = __PROC_JS__;
  const SESSION = __SESSION_JS__;
  const lines = [];
  const show = (line) => {
    lines.push(line);
    document.getElementById('wire').textContent = lines.join('\n');
  };
  window.__sdk = {
    resolve(id, payload) {
      if (payload.error) { show('#' + id + ' ✗ ' + payload.error.code + ': ' + payload.error.message); return; }
      const r = payload.result;
      if (id === 1) show('get(' + PROC + ') → ' + (r ? 'status ' + r.body.status : 'null'));
      if (id === 2) show('scope(' + SESSION + ') → ' + r.in_scope + ' chunks @ ' + r.head);
      if (id === 3) show('subscribe(' + SESSION + ') → ' + r.subscriptionId);
      if (id === 4) show('await(' + PROC + ') → ' + JSON.stringify(r));
    },
    event(payload) { show('event ' + payload.event); },
  };
  const post = (message) => window.__wry_ipc.postMessage(JSON.stringify(message));
  post({ id: 1, op: 'get', chunkId: PROC });
  post({ id: 2, op: 'scope', scopes: [SESSION] });
  post({ id: 3, op: 'subscribe', scopes: [SESSION] });
  if (__AWAIT_JS__) post({ id: 4, op: 'await', processes: [PROC] });
</script></body></html>"#;

/// The stand-in page for `program` running as `process` in `session`: the
/// names in the markup as given, the ids in the script as JSON strings, and
/// whether the page also asks the engine to `await` its own process.
pub open spec fn demo_page_text(program: Seq<char>, process: Seq<char>, session: Seq<char>, probe_await: bool) -> Seq<char> {
    replaced(
        replaced(
            replaced(
                replaced(
                    replaced(DEMO_TEMPLATE@, "__PROGRAM__"@, program),
                    "__PROCESS__"@,
                    process,
                ),
                "__PROC_JS__"@,
                json_quoted(process),
            ),
            "__SESSION_JS__"@,
            json_quoted(session),
        ),
        "__AWAIT_JS__"@,
        if probe_await { "true"@ } else { "false"@ },
    )
}

/// The rim's stand-in page for a program with no served source yet: it names
/// its process, then proves the transport by posting `get`, `scope` and
/// `subscribe` (and, where asked, `await`) and rendering what comes back.
pub fn demo_page(program: &str, process: &str, session: &str, probe_await: bool) -> (page: String)
    ensures
        page@ == demo_page_text(program@, process@, session@, probe_await),
{
    proof {
        reveal_strlit("__PROGRAM__");
        reveal_strlit("__PROCESS__");
        reveal_strlit("__PROC_JS__");
        reveal_strlit("__SESSION_JS__");
        reveal_strlit("__AWAIT_JS__");
    }
    let a = replace_str(DEMO_TEMPLATE, "__PROGRAM__", program);
    let b = replace_str(a.as_str(), "__PROCESS__", process);
    let process_js = json_string(process);
    let c = replace_str(b.as_str(), "__PROC_JS__", process_js.as_str());
    let session_js = json_string(session);
    let d = replace_str(c.as_str(), "__SESSION_JS__", session_js.as_str());
    let flag = if probe_await { "true" } else { "false" };
    replace_str(d.as_str(), "__AWAIT_JS__", flag)
}

/// The fixture rim's page for a leaf's process.
pub fn fixture_page(info: &crate::compose::ProcessInfo) -> (page: String)
    ensures
        page@ == demo_page_text(info.program@, info.process@, crate::field::DEMO_SESSION@, true),
{
    demo_page(info.program.as_str(), info.process.as_str(), crate::field::DEMO_SESSION, true)
}

/// The global that tells a page where its webview's top-left sits in the
/// window, in logical pixels.
pub const ORIGIN_GLOBAL: &'static str = "__openlight_origin";

/// The sentence that tells a page its origin, `x` and `y` as written.
pub open spec fn origin_text(x: Seq<char>, y: Seq<char>) -> Seq<char> {
    "window."@ + ORIGIN_GLOBAL@ + " = { x: "@ + x + ", y: "@ + y + " };"@
}

/// What runs before any page script: the named ipc alias over the webview's
/// own `window.ipc`, the process's id as a JSON string, and the origin.
pub open spec fn init_text(process: Seq<char>, x: Seq<char>, y: Seq<char>) -> Seq<char> {
    "window.__wry_ipc = { postMessage: (message) => window.ipc.postMessage(message) };\nwindow."@
        + PROCESS_GLOBAL@ + " = "@ + json_quoted(process) + ";\n"@ + origin_text(x, y)
}

fn push_origin(out: &mut Vec<char>, x: &str, y: &str)
    ensures
        final(out)@ == old(out)@ + origin_text(x@, y@),
{
    push_str(out, "window.");
    push_str(out, ORIGIN_GLOBAL);
    push_str(out, " = { x: ");
    push_str(out, x);
    push_str(out, ", y: ");
    push_str(out, y);
    push_str(out, " };");
    assert(out@ =~= old(out)@ + origin_text(x@, y@));
}

/// Re-stamped whenever the webview moves, so an overlay anchored from the
/// page lands where the page is; `x` and `y` as the caller writes them.
pub fn origin_script(x: &str, y: &str) -> (js: String)
    ensures
        js@ == origin_text(x@, y@),
{
    let mut out: Vec<char> = Vec::new();
    push_origin(&mut out, x, y);
    assert(out@ =~= origin_text(x@, y@));
    string_of(&out)
}

/// Installed before any page script. The process id is data, never source:
/// it is written as a JSON string.
pub fn init_script(process: &str, x: &str, y: &str) -> (js: String)
    ensures
        js@ == init_text(process@, x@, y@),
{
    let mut out: Vec<char> = Vec::new();
    push_str(&mut out, "window.__wry_ipc = { postMessage: (message) => window.ipc.postMessage(message) };\nwindow.");
    push_str(&mut out, PROCESS_GLOBAL);
    push_str(&mut out, " = ");
    let quoted = json_string(process);
    push_str(&mut out, quoted.as_str());
    push_str(&mut out, ";\n");
    push_origin(&mut out, x, y);
    assert(out@ =~= init_text(process@, x@, y@));
    string_of(&out)
}

} // verus!
