//! The shadow underlay, as the rim speaks to it: a full-window page that draws
//! an aura at each tile leaf. The rim's whole vocabulary here is rectangles,
//! sent as one JSON array; each rectangle arrives already written as its JSON
//! object.

use vstd::prelude::*;
use crate::text::{push_str, string_of};

verus! {

/// The id the underlay's webview is registered under. No engine run produces
/// it, so it never collides with a process.
pub const PROCESS: &'static str = "__underlay";

/// What the probe lane calls the underlay.
pub const PROGRAM: &'static str = "underlay";

/// The page, relative to the host project root.
pub const ENTRY: &'static str = "react/src/underlay.ts";

/// The elements, comma-separated.
pub open spec fn comma_joined(items: Seq<Seq<char>>) -> Seq<char>
    decreases items.len(),
{
    if items.len() == 0 {
        Seq::empty()
    } else if items.len() == 1 {
        items[0]
    } else {
        comma_joined(items.drop_last()) + ","@ + items.last()
    }
}

/// A JSON array holding the given element texts, written compactly.
pub open spec fn json_array(items: Seq<Seq<char>>) -> Seq<char> {
    "["@ + comma_joined(items) + "]"@
}

/// The texts of a slice of strings.
pub open spec fn texts(v: Seq<String>) -> Seq<Seq<char>> {
    Seq::new(v.len(), |i: int| v[i]@)
}

/// The message a loaded underlay receives: where the tiles are.
pub open spec fn script_text(rects: Seq<Seq<char>>) -> Seq<char> {
    "window.__openlight_underlay("@ + json_array(rects) + ");"@
}

/// What the page finds before its own code runs: the first rectangles, and a
/// receiver that buffers later ones until the page replaces it.
pub open spec fn init_text(rects: Seq<Seq<char>>) -> Seq<char> {
    "window.__openlight_rects = "@ + json_array(rects)
        + ";\nwindow.__openlight_underlay = (rects) => { window.__openlight_rects = rects; };"@
}

/// Appends the rectangles as one JSON array.
fn push_array(out: &mut Vec<char>, rects: &[String])
    ensures
        final(out)@ == old(out)@ + json_array(texts(rects@)),
{
    let ghost start = out@;
    push_str(out, "[");
    let mut i: usize = 0;
    while i < rects.len()
        invariant
            i <= rects@.len(),
            out@ == start + "["@ + comma_joined(texts(rects@).take(i as int)),
        decreases rects.len() - i,
    {
        let ghost before = out@;
        if i > 0 {
            push_str(out, ",");
        }
        push_str(out, rects[i].as_str());
        proof {
            let t = texts(rects@);
            assert(t.take(i + 1).drop_last() =~= t.take(i as int));
            assert(t.take(i + 1).last() == rects@[i as int]@);
            if i == 0 {
                assert(t.take(0) =~= Seq::<Seq<char>>::empty());
            }
            assert(out@ =~= start + "["@ + comma_joined(t.take(i + 1)));
        }
        i = i + 1;
    }
    push_str(out, "]");
    assert(texts(rects@).take(i as int) =~= texts(rects@));
    assert(out@ =~= start + json_array(texts(rects@)));
}

/// The one message the rim sends a loaded underlay; an empty layout clears
/// every aura.
pub fn script(rects: &[String]) -> (js: String)
    ensures
        js@ == script_text(texts(rects@)),
{
    let mut out: Vec<char> = Vec::new();
    push_str(&mut out, "window.__openlight_underlay(");
    push_array(&mut out, rects);
    push_str(&mut out, ");");
    assert(out@ =~= script_text(texts(rects@)));
    string_of(&out)
}

/// Installed before the page's own code, once per document: the first layout
/// rides in here, where the page is sure to find it.
pub fn init_script(rects: &[String]) -> (js: String)
    ensures
        js@ == init_text(texts(rects@)),
{
    let mut out: Vec<char> = Vec::new();
    push_str(&mut out, "window.__openlight_rects = ");
    push_array(&mut out, rects);
    push_str(
        &mut out,
        ";\nwindow.__openlight_underlay = (rects) => { window.__openlight_rects = rects; };",
    );
    assert(out@ =~= init_text(texts(rects@)));
    string_of(&out)
}

} // verus!
