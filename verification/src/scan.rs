//! The scanner's decisions: which strategy a reconciliation run uses,
//! which candidate paths are admitted, what is done with each, and the
//! path-prefix rewrite of the worktree bootstrap. The walking itself —
//! the filesystem, the repository, the status iteration — happens outside
//! and hands these functions plain values.

use vstd::prelude::*;
use vstd::string::StringSliceAdditionalSpecFns;
use vstd::string::StrSliceExecFns;
use crate::text::str_eq;

verus! {

/// The subdirectory of the root that holds the index database.
pub const INDEX_DIR_NAME: &'static str = ".source_fast";

/// The repository metadata directory never indexed.
pub const GIT_DIR_NAME: &'static str = ".git";

/// How a reconciliation run proceeds.
#[derive(Debug, Clone, Copy, PartialEq, Eq, Structural)]
pub enum ScanStrategy {
    /// No repository: walk the filesystem.
    FullWalk,
    /// A repository without a stored checkpoint: enumerate tracked files
    /// and the dirty set.
    InitialRepo,
    /// The checkpoint equals the current head: working-tree changes only.
    WorktreeOnly,
    /// The checkpoint differs: tree-diff the two commits and union the
    /// working-tree changes.
    Incremental,
}

/// The strategy for the observed repository state: no repository or no
/// readable head falls back to the full walk; a missing checkpoint makes
/// the initial repository scan; a checkpoint equal to the current head
/// reconciles the working tree only; any other checkpoint diffs the two
/// heads.
pub open spec fn strategy_spec(
    head: Option<Seq<char>>,
    stored: Option<Seq<char>>,
) -> ScanStrategy {
    match head {
        Option::None => ScanStrategy::FullWalk,
        Option::Some(h) => match stored {
            Option::None => ScanStrategy::InitialRepo,
            Option::Some(s) => if s == h {
                ScanStrategy::WorktreeOnly
            } else {
                ScanStrategy::Incremental
            },
        },
    }
}

/// Choose the scan strategy from the current head commit (if a repository
/// was found and its head read) and the stored checkpoint.
pub fn choose_strategy(current_head: Option<&String>, stored_head: Option<&String>) -> (r:
    ScanStrategy)
    ensures
        r == strategy_spec(
            (match current_head {
                Option::Some(h) => Option::Some(h@),
                Option::None => Option::None,
            }),
            (match stored_head {
                Option::Some(s) => Option::Some(s@),
                Option::None => Option::None,
            }),
        ),
{
    match current_head {
        Option::None => ScanStrategy::FullWalk,
        Option::Some(h) => match stored_head {
            Option::None => ScanStrategy::InitialRepo,
            Option::Some(s) => {
                if str_eq(s.as_str(), h.as_str()) {
                    ScanStrategy::WorktreeOnly
                } else {
                    ScanStrategy::Incremental
                }
            },
        },
    }
}

/// Law: with the stored checkpoint equal to the current head, a rescan
/// reconciles the working tree only; an unchanged working tree then
/// offers no candidates, so nothing is applied beyond refreshing the
/// checkpoint.
pub proof fn lemma_unchanged_tree_rescan(h: Seq<char>)
    ensures
        strategy_spec(Option::Some(h), Option::Some(h)) == ScanStrategy::WorktreeOnly,
{
}

/// `dir` is a path-component prefix of `p`: the bytes match and end at a
/// component boundary.
pub open spec fn is_path_prefix(dir: Seq<u8>, p: Seq<u8>) -> bool {
    &&& p.len() >= dir.len()
    &&& p.subrange(0, dir.len() as int) == dir
    &&& (p.len() == dir.len() || p[dir.len() as int] == 47u8)
}

/// Decide whether `dir` is a path-component prefix of `path`.
pub fn path_has_prefix(path: &str, dir: &[u8]) -> (r: bool)
    ensures
        r == is_path_prefix(dir@, path.spec_bytes()),
{
    let p = path.as_bytes();
    if p.len() < dir.len() {
        return false;
    }
    let n = dir.len();
    let pn = p.len();
    let mut i: usize = 0;
    while i < n
        invariant
            0 <= i <= n == dir@.len(),
            n <= pn == p@.len(),
            p@ == path.spec_bytes(),
            forall|j: int| 0 <= j < i ==> p@[j] == dir@[j],
        decreases n - i,
    {
        if p[i] != dir[i] {
            proof {
                assert(p@.subrange(0, dir@.len() as int)[i as int] != dir@[i as int]);
            }
            return false;
        }
        i += 1;
    }
    proof {
        assert(p@.subrange(0, dir@.len() as int) =~= dir@);
    }
    if pn == n {
        true
    } else {
        p[n] == 47
    }
}

/// What the scanner does with one candidate path.
#[derive(Debug, Clone, Copy, PartialEq, Eq, Structural)]
pub enum ApplyAction {
    /// A regular file under the root: index it.
    Upsert,
    /// A path under the root absent on disk: remove it.
    Remove,
    /// Outside the root, inside an excluded directory, or not a regular
    /// file: leave it alone.
    Skip,
}

/// The path hygiene rule: a candidate outside the root, inside the
/// index's own directory or inside the repository metadata directory is
/// skipped; an existing regular file is upserted; a missing path is
/// removed; anything else (a directory, a special file) is skipped.
pub open spec fn candidate_action_spec(
    root: Seq<u8>,
    p: Seq<u8>,
    exists: bool,
    is_file: bool,
) -> ApplyAction {
    if !is_path_prefix(root, p) || is_path_prefix(
        root + seq![47u8] + INDEX_DIR_NAME.spec_bytes(),
        p,
    ) || is_path_prefix(root + seq![47u8] + GIT_DIR_NAME.spec_bytes(), p) {
        ApplyAction::Skip
    } else if exists {
        if is_file {
            ApplyAction::Upsert
        } else {
            ApplyAction::Skip
        }
    } else {
        ApplyAction::Remove
    }
}

/// The bytes of the root's index directory path.
pub fn index_dir_bytes(root: &str) -> (r: Vec<u8>)
    ensures
        r@ == root.spec_bytes() + seq![47u8] + INDEX_DIR_NAME.spec_bytes(),
{
    joined_bytes(root, INDEX_DIR_NAME)
}

/// The root directory joined with a child name by one separator, as bytes.
fn joined_bytes(root: &str, name: &str) -> (r: Vec<u8>)
    ensures
        r@ == root.spec_bytes() + seq![47u8] + name.spec_bytes(),
{
    let mut v = root.as_bytes_vec();
    v.push(47);
    v.extend_from_slice(name.as_bytes());
    proof {
        assert(v@ =~= root.spec_bytes() + seq![47u8] + name.spec_bytes());
    }
    v
}

/// Decide what the scanner does with one candidate path, given what the
/// filesystem reports about it.
pub fn plan_candidate(root: &str, path: &str, exists: bool, is_file: bool) -> (r: ApplyAction)
    ensures
        r == candidate_action_spec(root.spec_bytes(), path.spec_bytes(), exists, is_file),
{
    let root_bytes = root.as_bytes_vec();
    let index_dir = joined_bytes(root, INDEX_DIR_NAME);
    let git_dir = joined_bytes(root, GIT_DIR_NAME);
    if !path_has_prefix(path, root_bytes.as_slice()) || path_has_prefix(
        path,
        index_dir.as_slice(),
    ) || path_has_prefix(path, git_dir.as_slice()) {
        ApplyAction::Skip
    } else if exists {
        if is_file {
            ApplyAction::Upsert
        } else {
            ApplyAction::Skip
        }
    } else {
        ApplyAction::Remove
    }
}

/// `pre` followed by a separator is a plain byte prefix of `p`.
pub open spec fn slash_prefixed(pre: Seq<u8>, p: Seq<u8>) -> bool {
    p.len() > pre.len() + 1 && p.subrange(0, pre.len() + 1int) == pre + seq![47u8]
}

/// A stored path after the bootstrap rewrite: a path under the old root
/// continues under the new root with its suffix kept; any other path
/// stays as it is.
pub open spec fn rewritten(p: Seq<u8>, o: Seq<u8>, n: Seq<u8>) -> Seq<u8> {
    if slash_prefixed(o, p) {
        n + p.skip(o.len() as int)
    } else {
        p
    }
}

/// Rewrite one stored path for the worktree bootstrap: a path under
/// `old_root` moves under `new_root` with its suffix kept; any other path
/// is returned unchanged. The suffix begins at an ASCII separator of a
/// valid UTF-8 string, so it always decodes.
pub fn rewrite_path_prefix(path: &str, old_root: &str, new_root: &str) -> (r: String)
    ensures
        str_bytes_of(r@) == rewritten(
            path.spec_bytes(),
            old_root.spec_bytes(),
            new_root.spec_bytes(),
        ),
        !slash_prefixed(old_root.spec_bytes(), path.spec_bytes()) ==> r@ == path@,
{
    let p = path.as_bytes();
    let pre = old_root.as_bytes();
    let pn = pre.len();
    if p.len() <= pn || p.len() - pn <= 1 {
        proof {
            assert(!slash_prefixed(old_root.spec_bytes(), path.spec_bytes()));
        }
        return path.to_owned();
    }
    let mut i: usize = 0;
    while i < pn
        invariant
            0 <= i <= pn == pre@.len(),
            p@.len() > pn + 1,
            p@ == path.spec_bytes(),
            pre@ == old_root.spec_bytes(),
            forall|j: int| 0 <= j < i ==> p@[j] == pre@[j],
        decreases pn - i,
    {
        if p[i] != pre[i] {
            proof {
                assert(p@.subrange(0, pre@.len() + 1int)[i as int] != (pre@ + seq![47u8])[i as int]);
            }
            return path.to_owned();
        }
        i += 1;
    }
    if p[pn] != 47 {
        proof {
            assert(p@.subrange(0, pre@.len() + 1int)[pn as int] != (pre@ + seq![47u8])[pn as int]);
        }
        return path.to_owned();
    }
    proof {
        assert(p@.subrange(0, pre@.len() + 1int) =~= pre@ + seq![47u8]);
    }
    let mut out = new_root.as_bytes_vec();
    let mut k: usize = pn;
    let total = p.len();
    while k < total
        invariant
            pn <= k <= total == p@.len(),
            p@ == path.spec_bytes(),
            pre@ == old_root.spec_bytes(),
            pn == pre@.len(),
            p@.len() > pn + 1,
            p@.subrange(0, pre@.len() + 1int) == pre@ + seq![47u8],
            out@ == new_root.spec_bytes() + p@.subrange(pn as int, k as int),
        decreases total - k,
    {
        out.push(p[k]);
        proof {
            assert(out@ =~= new_root.spec_bytes() + p@.subrange(pn as int, k + 1int));
        }
        k += 1;
    }
    proof {
        assert(p@.subrange(pn as int, total as int) =~= p@.skip(pn as int));
        vstd::utf8::encode_utf8_valid_utf8(path@);
        vstd::utf8::encode_utf8_valid_utf8(new_root@);
        assert(!vstd::utf8::is_continuation_byte(p@[pn as int]));
        vstd::utf8::is_char_boundary_iff_not_is_continuation_byte(p@, pn as int);
        vstd::utf8::valid_utf8_split(p@, pn as int);
        assert(vstd::utf8::valid_utf8(p@.skip(pn as int))) by {
            assert(p@.skip(pn as int) =~= p@.subrange(pn as int, p@.len() as int));
        }
        vstd::utf8::valid_utf8_concat(new_root.spec_bytes(), p@.skip(pn as int));
        assert(vstd::utf8::valid_utf8(out@));
    }
    match crate::text::string_from_utf8(out) {
        Option::Some(s) => s,
        Option::None => {
            proof {
                assert(false);
            }
            path.to_owned()
        },
    }
}

/// The byte sequence of a string value (a shorthand for contracts here).
pub open spec fn str_bytes_of(s: Seq<char>) -> Seq<u8> {
    crate::text::str_bytes(s)
}

} // verus!
