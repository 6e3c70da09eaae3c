//! The watcher's decisions: which change events matter, and what each
//! does to the index. The event source is outside; it hands these
//! functions the event kind and the affected paths as plain values.

use vstd::prelude::*;
use vstd::string::StringSliceAdditionalSpecFns;
use crate::scan::{is_path_prefix, path_has_prefix, INDEX_DIR_NAME};

verus! {

/// The change-event kinds the watcher distinguishes.
#[derive(Debug, Clone, Copy, PartialEq, Eq, Structural)]
pub enum WatchEventKind {
    /// A file was created.
    CreateFile,
    /// A file's data changed.
    ModifyData,
    /// Something about a file changed, unspecified.
    ModifyAny,
    /// A file was removed.
    RemoveFile,
    /// Anything else: directory events, permission changes, and the rest.
    Other,
}

/// What the watcher does for one event.
#[derive(Debug, Clone, Copy, PartialEq, Eq, Structural)]
pub enum WatchAction {
    /// Wait the debounce delay, then index each affected path.
    UpsertAfterDebounce,
    /// Remove each affected path at once.
    RemoveNow,
    /// Ignore the event.
    Ignore,
}

/// The dispatch rule: creations and modifications are debounced upserts,
/// removals are immediate, everything else is ignored.
pub open spec fn watch_action_spec(kind: WatchEventKind) -> WatchAction {
    match kind {
        WatchEventKind::CreateFile => WatchAction::UpsertAfterDebounce,
        WatchEventKind::ModifyData => WatchAction::UpsertAfterDebounce,
        WatchEventKind::ModifyAny => WatchAction::UpsertAfterDebounce,
        WatchEventKind::RemoveFile => WatchAction::RemoveNow,
        WatchEventKind::Other => WatchAction::Ignore,
    }
}

/// Decide what one event does.
pub fn watch_action(kind: WatchEventKind) -> (r: WatchAction)
    ensures
        r == watch_action_spec(kind),
{
    match kind {
        WatchEventKind::CreateFile => WatchAction::UpsertAfterDebounce,
        WatchEventKind::ModifyData => WatchAction::UpsertAfterDebounce,
        WatchEventKind::ModifyAny => WatchAction::UpsertAfterDebounce,
        WatchEventKind::RemoveFile => WatchAction::RemoveNow,
        WatchEventKind::Other => WatchAction::Ignore,
    }
}

/// A path under the index's own directory, which the watcher never
/// touches.
pub open spec fn under_index_dir_spec(root: Seq<u8>, p: Seq<u8>) -> bool {
    is_path_prefix(root + seq![47u8] + INDEX_DIR_NAME.spec_bytes(), p)
}

/// Decide whether a path lies under the index's own directory.
pub fn under_index_dir(root: &str, path: &str) -> (r: bool)
    ensures
        r == under_index_dir_spec(root.spec_bytes(), path.spec_bytes()),
{
    let dir = crate::scan::index_dir_bytes(root);
    path_has_prefix(path, dir.as_slice())
}

} // verus!
