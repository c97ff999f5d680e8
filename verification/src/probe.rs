//! The probe lane: the script injected into every mounted webview to read
//! its own DOM back, and the tally that says when every surface has answered.

use vstd::prelude::*;
use crate::json::{json_quoted, json_string};
use crate::text::{decimal, replaced, replace_str, usize_decimal};

verus! {

/// The sentinel the rim sends itself once every surface has reported; no
/// process is ever named this.
pub const DONE: &'static str = "__probe_done";

/// The nodes worth a computed style: the page's own frame, then the strip,
/// its items, the tile card and its scrolling content.
pub const SELECTORS: &'static str =
    "html, body, #root, .strip, .items, .item, .quiet, .tile, .head, .content, .rows, .row, .foot";

/// How much of the serialized DOM a report carries.
pub const HTML_LIMIT: usize = 6000;

/// How many nodes one report describes.
pub const NODE_LIMIT: usize = 48;

/// The script with its three placeholders still open.
pub const TEMPLATE: &'static str = r#"(() => {
  const style = (el) => {
    const s = getComputedStyle(el);
    return {
      background: s.backgroundColor,
      color: s.color,
      color_scheme: s.colorScheme,
      border_radius: s.borderRadius,
      position: s.position,
      overflow_y: s.overflowY,
    };
  };
  const nodes = [...document.querySelectorAll(__SELECTORS__)]
    .slice(0, __NODE_LIMIT__)
    .map((el) => ({
      tag: el.tagName.toLowerCase(),
      class: typeof el.className === 'string' && el.className ? el.className : null,
      id: el.id || null,
      data: { ...el.dataset },
      client_height: el.clientHeight,
      scroll_height: el.scrollHeight,
      scrollable: el.scrollHeight > el.clientHeight + 1,
      // A laid-out scrollbar takes width from the content box; an overlay one
      // (macOS at rest) does not — the affordance, as the DOM knows it.
      scrollbar_width: el.offsetWidth ? el.offsetWidth - el.clientWidth : 0,
      text: (el.textContent || '').replace(/\s+/g, ' ').trim().slice(0, 72),
      ...style(el),
    }));
  const clone = document.documentElement.cloneNode(true);
  for (const dense of clone.querySelectorAll('script, style')) {
    dense.textContent = '/* ' + dense.textContent.length + ' chars */';
  }
  let html = clone.outerHTML;
  const full = html.length;
  if (full > __HTML_LIMIT__) html = html.slice(0, __HTML_LIMIT__);
  window.__wry_ipc.postMessage(JSON.stringify({
    probe: { nodes, html, html_length: full },
  }));
})()"#;

/// The script with the selector list filled in as a JSON string and both
/// limits as decimal numerals.
pub open spec fn probe_script(template: Seq<char>, selectors: Seq<char>, html_limit: nat, node_limit: nat) -> Seq<char> {
    replaced(
        replaced(
            replaced(template, "__SELECTORS__"@, json_quoted(selectors)),
            "__HTML_LIMIT__"@,
            decimal(html_limit),
        ),
        "__NODE_LIMIT__"@,
        decimal(node_limit),
    )
}

/// The script injected into every mounted webview. It reads the live DOM:
/// computed styles are the webview's own answer.
pub fn script(html_limit: usize, node_limit: usize) -> (js: String)
    ensures
        js@ == probe_script(TEMPLATE@, SELECTORS@, html_limit as nat, node_limit as nat),
{
    proof {
        reveal_strlit("__SELECTORS__");
        reveal_strlit("__HTML_LIMIT__");
        reveal_strlit("__NODE_LIMIT__");
    }
    let selectors = json_string(SELECTORS);
    let a = replace_str(TEMPLATE, "__SELECTORS__", selectors.as_str());
    let html = usize_decimal(html_limit);
    let b = replace_str(a.as_str(), "__HTML_LIMIT__", html.as_str());
    let nodes = usize_decimal(node_limit);
    replace_str(b.as_str(), "__NODE_LIMIT__", nodes.as_str())
}

/// The count of surfaces still owed a report. The rim exits when it empties.
#[derive(Debug, Clone, PartialEq)]
pub struct Tally {
    expected: usize,
    seen: usize,
}

/// Whether the report that finds `seen` reports already recorded is the one
/// that completes a set of `expected`.
pub open spec fn completes(expected: nat, seen: nat) -> bool {
    seen + 1 == expected
}

impl Tally {
    /// How many reports complete the set.
    pub closed spec fn expected_count(&self) -> nat {
        self.expected as nat
    }

    /// How many reports have been recorded.
    pub closed spec fn seen_count(&self) -> nat {
        self.seen as nat
    }

    pub fn new(expected: usize) -> (t: Tally)
        ensures
            t.expected_count() == expected,
            t.seen_count() == 0,
    {
        Tally { expected, seen: 0 }
    }

    /// Records one report; `true` exactly when this report completes the set.
    pub fn record(&mut self) -> (done: bool)
        requires
            old(self).seen_count() < usize::MAX,
        ensures
            final(self).expected_count() == old(self).expected_count(),
            final(self).seen_count() == old(self).seen_count() + 1,
            done == completes(old(self).expected_count(), old(self).seen_count()),
    {
        self.seen = self.seen + 1;
        self.seen == self.expected
    }

    pub fn seen(&self) -> (n: usize)
        ensures
            n == self.seen_count(),
    {
        self.seen
    }
}

/// Completion is a moment, not a state: of all the records a tally takes,
/// only one reports completion, and for a set of `n` it is the `n`-th.
pub proof fn completion_is_reported_once(expected: nat, first: nat, second: nat)
    requires
        completes(expected, first),
        completes(expected, second),
    ensures
        first == second,
        expected >= 1,
        first == expected - 1,
{
}

/// Over a run of reports on a fresh tally of `expected` (the `i`th report
/// sees `i - 1` before it), the `i`th report says done exactly when `i` is
/// `expected`: the set is reported complete once, at its last report, when
/// that many arrive, and never otherwise.
pub proof fn completion_comes_at_the_last_report(expected: nat, reports: nat)
    ensures
        forall|i: nat| 1 <= i <= reports ==> (#[trigger] completes(expected, (i - 1) as nat) <==> i == expected),
        (exists|i: nat| 1 <= i <= reports && #[trigger] completes(expected, (i - 1) as nat)) <==> 1 <= expected
            <= reports,
{
    if 1 <= expected <= reports {
        assert(completes(expected, (expected - 1) as nat));
    }
}

} // verus!
