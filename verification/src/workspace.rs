//! The initial workspace: one session holding one tab holding one leaf tile,
//! with a settings chunk beside the session. Each piece is found or created,
//! and one commit carries whatever is missing. What exists is the caller's to
//! read; this is what follows from it.

use vstd::prelude::*;
use crate::order::views;
use crate::settings::{absent, merged_settings};

verus! {

/// The initial session's id.
pub const SESSION_ID: &'static str = "session-main";

/// The initial session's name.
pub const SESSION_NAME: &'static str = "main";

/// The initial tab's id.
pub const TAB_ID: &'static str = "tab-main";

/// The initial leaf tile's id.
pub const LEAF_ID: &'static str = "tile-first";

/// What a launch must write to have its workspace.
pub struct WorkspacePlan {
    /// Create the session, typed on the session archetype.
    pub create_session: bool,
    /// Create the tab, typed on the tab archetype and placed on the session.
    pub create_tab: bool,
    /// An existing session predates the tab: rewrite it, carrying its name,
    /// spec and body, with the tab as its current tab.
    pub point_session_at_tab: bool,
    /// Create the leaf, typed on the tile archetype and placed first on the
    /// tab.
    pub create_leaf: bool,
    /// The settings chunk is missing and is created with every default.
    pub create_settings: bool,
    /// The positions of the defaults the settings lack (all of them for
    /// settings that are missing), `None` when none is lacking.
    pub grow_settings: Option<Vec<usize>>,
    /// Whether anything is written at all.
    pub commits: bool,
}

/// The plan for a launch that found the session, tab and leaf as given and
/// the settings chunk with the given keys (`None` when it is missing).
pub fn workspace_plan(
    session_exists: bool,
    tab_exists: bool,
    leaf_exists: bool,
    settings_keys: &Option<Vec<String>>,
    defaults: &Vec<String>,
) -> (p: WorkspacePlan)
    ensures
        p.create_session == !session_exists,
        p.create_tab == !tab_exists,
        p.point_session_at_tab == (!tab_exists && session_exists),
        p.create_leaf == !leaf_exists,
        p.create_settings == (settings_keys is None && defaults@.len() > 0),
        ({
            let present = match settings_keys {
                Some(keys) => views(keys@),
                None => Seq::<Seq<char>>::empty(),
            };
            let lacking = absent(present, views(defaults@), defaults@.len() as int);
            match p.grow_settings {
                None => lacking.len() == 0,
                Some(ks) => ks@.len() > 0 && Seq::new(ks@.len(), |i: int| ks@[i] as int) == lacking,
            }
        }),
        p.commits == (!session_exists || !tab_exists || !leaf_exists || p.grow_settings is Some),
{
    let none: Vec<String> = Vec::new();
    let present = match settings_keys {
        Some(keys) => keys,
        None => &none,
    };
    assert(views(none@) =~= Seq::<Seq<char>>::empty());
    let grow_settings = merged_settings(present, defaults);
    let create_settings = match settings_keys {
        None => grow_settings.is_some(),
        Some(_) => false,
    };
    proof {
        if settings_keys is None {
            assert(views(present@) =~= Seq::<Seq<char>>::empty());
            lemma_all_absent(views(defaults@), defaults@.len() as int);
        }
    }
    let commits = !session_exists || !tab_exists || !leaf_exists || grow_settings.is_some();
    WorkspacePlan {
        create_session: !session_exists,
        create_tab: !tab_exists,
        point_session_at_tab: !tab_exists && session_exists,
        create_leaf: !leaf_exists,
        create_settings,
        grow_settings,
        commits,
    }
}

proof fn lemma_all_absent(defaults: Seq<Seq<char>>, n: int)
    requires
        0 <= n <= defaults.len(),
    ensures
        absent(Seq::empty(), defaults, n).len() == n,
    decreases n,
{
    if n > 0 {
        lemma_all_absent(defaults, n - 1);
        assert(!Seq::<Seq<char>>::empty().contains(defaults[n - 1]));
    }
}

} // verus!
