//! Run configuration and the small decisions the command surface
//! makes: which traversal roots to push and whether to load or write
//! the index cache.

use vstd::prelude::*;

verus! {

/// The run configuration, as parsed from the command line.
pub struct Options {
    /// Worker count; `None` means the physical core count.
    pub threads: Option<usize>,
    /// Traverse only along the checked-out head.
    pub head_only: bool,
    /// Skip the optimize and compact passes after the build.
    pub no_compact: bool,
    /// Where to look for (or write) the serialized index.
    pub cache_path: Option<String>,
    /// The repository to index.
    pub repository: String,
    /// A directory tree to batch-resolve instead of serving queries.
    pub tree: Option<String>,
}

/// What to do about the index cache.
pub enum CacheAction {
    LoadExisting,
    BuildAndSave,
    BuildOnly,
}

/// The idempotent cache policy: when a cache path is configured and the
/// file exists, load it; when configured but absent, build then save;
/// with no path configured, just build.
pub fn cache_action(cache_configured: bool, file_exists: bool) -> (r: CacheAction)
    ensures
        r is LoadExisting <==> (cache_configured && file_exists),
        r is BuildAndSave <==> (cache_configured && !file_exists),
        r is BuildOnly <==> !cache_configured,
{
    if cache_configured {
        if file_exists {
            CacheAction::LoadExisting
        } else {
            CacheAction::BuildAndSave
        }
    } else {
        CacheAction::BuildOnly
    }
}

/// Which references seed the commit walk.
pub enum RootsPlan {
    /// Push only the checked-out head.
    Head,
    /// Push every remote-tracking branch head.
    Remotes,
    /// No remote was found: fall back to the head, with a warning.
    FallbackHead,
}

/// Picks the traversal roots: the head when `head_only` is set, else
/// all remote heads, falling back to the head when there are none.
pub fn plan_roots(head_only: bool, remote_count: usize) -> (r: RootsPlan)
    ensures
        r is Head <==> head_only,
        r is Remotes <==> (!head_only && remote_count > 0),
        r is FallbackHead <==> (!head_only && remote_count == 0),
{
    if head_only {
        RootsPlan::Head
    } else if remote_count > 0 {
        RootsPlan::Remotes
    } else {
        RootsPlan::FallbackHead
    }
}

} // verus!
