use source_fast::index::PersistentIndex;
use source_fast::lease::{role_step, Role, RoleStep};
use source_fast::scan::{choose_strategy, plan_candidate, rewrite_path_prefix, ApplyAction,
    ScanStrategy};
use source_fast::text::{parent_of, resolve_path};
use source_fast::watch::{under_index_dir, watch_action, WatchAction, WatchEventKind};

#[test]
fn strategy_follows_repository_state() {
    let head = "aaaa1111".to_string();
    let other = "bbbb2222".to_string();
    assert_eq!(choose_strategy(None, None), ScanStrategy::FullWalk);
    assert_eq!(choose_strategy(None, Some(&head)), ScanStrategy::FullWalk);
    assert_eq!(choose_strategy(Some(&head), None), ScanStrategy::InitialRepo);
    assert_eq!(choose_strategy(Some(&head), Some(&head)), ScanStrategy::WorktreeOnly);
    assert_eq!(choose_strategy(Some(&head), Some(&other)), ScanStrategy::Incremental);
}

#[test]
fn candidates_respect_path_hygiene() {
    let root = "/repo_zqx";
    // a regular file under the root is indexed
    assert_eq!(plan_candidate(root, "/repo_zqx/src/a.rs", true, true), ApplyAction::Upsert);
    // a missing path under the root is removed
    assert_eq!(plan_candidate(root, "/repo_zqx/src/gone.rs", false, false), ApplyAction::Remove);
    // a directory is skipped
    assert_eq!(plan_candidate(root, "/repo_zqx/src", true, false), ApplyAction::Skip);
    // outside the root
    assert_eq!(plan_candidate(root, "/elsewhere/b.rs", true, true), ApplyAction::Skip);
    // a sibling whose name extends the root is not under it
    assert_eq!(plan_candidate(root, "/repo_zqx2/b.rs", true, true), ApplyAction::Skip);
    // the index's own directory and the repository metadata
    assert_eq!(
        plan_candidate(root, "/repo_zqx/.source_fast/index.db", true, true),
        ApplyAction::Skip
    );
    assert_eq!(plan_candidate(root, "/repo_zqx/.git/config", true, true), ApplyAction::Skip);
    // names merely starting with the excluded ones are fine
    assert_eq!(plan_candidate(root, "/repo_zqx/.gitignore", true, true), ApplyAction::Upsert);
}

#[test]
fn parent_of_splits_at_the_last_separator() {
    assert_eq!(parent_of("/a/b/c.rs"), Some("/a/b".to_string()));
    assert_eq!(parent_of("/top.rs"), Some("/".to_string()));
    assert_eq!(parent_of("bare_name"), None);
    assert_eq!(parent_of(""), None);
}

#[test]
fn resolution_prefers_the_outcomes_in_order() {
    // the target's own canonical form wins
    assert_eq!(
        resolve_path("/gone/f.rs", Some("/real/f.rs".to_string()), Some("/real".to_string())),
        "/real/f.rs"
    );
    // else the parent's canonical form carries the file name
    assert_eq!(
        resolve_path("/gone/dir/f.rs", None, Some("/real/dir".to_string())),
        "/real/dir/f.rs"
    );
    // a path without a separator cannot use a parent outcome
    assert_eq!(resolve_path("plain", None, Some("/real".to_string())), "plain");
    // with no outcome at all the input comes back as given
    assert_eq!(resolve_path("/gone/f.rs", None, None), "/gone/f.rs");
}

#[test]
fn bootstrap_rewrites_only_matching_prefixes() {
    assert_eq!(
        rewrite_path_prefix("/primary/src/lib.rs", "/primary", "/secondary"),
        "/secondary/src/lib.rs"
    );
    assert_eq!(rewrite_path_prefix("/other/src/lib.rs", "/primary", "/secondary"), "/other/src/lib.rs");
    // the prefix must end at a separator
    assert_eq!(rewrite_path_prefix("/primaryX/f.rs", "/primary", "/secondary"), "/primaryX/f.rs");
    assert_eq!(rewrite_path_prefix("/primary", "/primary", "/secondary"), "/primary");
    // a multi-byte suffix survives the rewrite intact
    assert_eq!(
        rewrite_path_prefix("/primary/f\u{e9}.rs", "/primary", "/secondary"),
        "/secondary/f\u{e9}.rs"
    );
}

#[test]
fn watcher_dispatch_by_event_kind() {
    assert_eq!(watch_action(WatchEventKind::CreateFile), WatchAction::UpsertAfterDebounce);
    assert_eq!(watch_action(WatchEventKind::ModifyData), WatchAction::UpsertAfterDebounce);
    assert_eq!(watch_action(WatchEventKind::ModifyAny), WatchAction::UpsertAfterDebounce);
    assert_eq!(watch_action(WatchEventKind::RemoveFile), WatchAction::RemoveNow);
    assert_eq!(watch_action(WatchEventKind::Other), WatchAction::Ignore);
}

#[test]
fn watcher_skips_the_index_directory() {
    assert!(under_index_dir("/r_zqx", "/r_zqx/.source_fast/index.db"));
    assert!(under_index_dir("/r_zqx", "/r_zqx/.source_fast"));
    assert!(!under_index_dir("/r_zqx", "/r_zqx/src/a.rs"));
    assert!(!under_index_dir("/r_zqx", "/r_zqx/.source_fastX"));
}

#[test]
fn role_transitions_follow_the_lease() {
    assert_eq!(
        role_step(Role::Reader, true),
        RoleStep { next: Role::Writer, write_enabled: true, start_workers: true, reset_ready: false }
    );
    assert_eq!(
        role_step(Role::Reader, false),
        RoleStep {
            next: Role::Reader,
            write_enabled: false,
            start_workers: false,
            reset_ready: false,
        }
    );
    assert_eq!(
        role_step(Role::Writer, true),
        RoleStep {
            next: Role::Writer,
            write_enabled: true,
            start_workers: false,
            reset_ready: false,
        }
    );
    assert_eq!(
        role_step(Role::Writer, false),
        RoleStep { next: Role::Reader, write_enabled: false, start_workers: false, reset_ready: true }
    );
}

#[test]
fn one_writer_at_a_time() {
    let mut idx = PersistentIndex::open_or_create(":memory:").unwrap();
    let ttl = 5000u64;
    // three processes race: exactly the first wins
    assert!(idx.try_acquire_writer_lease("pid:1", 1000, ttl).unwrap());
    assert!(!idx.try_acquire_writer_lease("pid:2", 1000, ttl).unwrap());
    assert!(!idx.try_acquire_writer_lease("pid:3", 1000, ttl).unwrap());

    // the holder renews while live; nobody else can
    assert!(idx.renew_writer_lease("pid:1", 3000, ttl).unwrap());
    assert!(!idx.try_acquire_writer_lease("pid:2", 7000, ttl).unwrap());

    // the writer dies: after the expiry passes, exactly one reader takes over
    assert!(idx.try_acquire_writer_lease("pid:2", 8001, ttl).unwrap());
    assert!(!idx.try_acquire_writer_lease("pid:3", 8002, ttl).unwrap());
    // the old writer notices it is no longer the holder
    assert!(!idx.renew_writer_lease("pid:1", 8003, ttl).unwrap());
}

#[test]
fn reacquiring_ones_own_lease_succeeds() {
    let mut idx = PersistentIndex::open_or_create(":memory:").unwrap();
    assert!(idx.try_acquire_writer_lease("pid:9", 1000, 5000).unwrap());
    // the holder may re-acquire while live (renewal by acquisition)
    assert!(idx.try_acquire_writer_lease("pid:9", 2000, 5000).unwrap());
    assert!(idx.renew_writer_lease("pid:9", 3000, 5000).unwrap());
}
