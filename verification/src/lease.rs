//! The cross-process writer lease: one row names the current writer and
//! an expiry instant in epoch milliseconds. A process acquires the lease
//! when the row is absent, expired, or already its own; it renews only
//! while it is still the recorded holder. The decisions are the pure
//! functions below, and the store applies them to the row in one immediate
//! transaction, so two processes cannot interleave a read and a write of
//! it. The row itself is shared between processes by design, so no
//! contract ties one call's outcome to an earlier call's: the wrappers
//! promise only what holds of each single call, and the role machine
//! consumes the returned decision.

use vstd::prelude::*;
use crate::model::IndexError;
use crate::store::{files_of, meta_of, postings_of, tris_of, Store, MAX_STORE_TS};

verus! {

/// Whether `holder` may take the lease at `now`: the row is absent,
/// expired, or already held by `holder`.
pub open spec fn lease_acquirable(l: Option<(Seq<char>, u64)>, holder: Seq<char>, now: u64) -> bool {
    match l {
        Option::None => true,
        Option::Some((h, e)) => e < now || h == holder,
    }
}

/// Whether `holder` may renew the lease: the row exists and records it.
pub open spec fn lease_renewable(l: Option<(Seq<char>, u64)>, holder: Seq<char>) -> bool {
    match l {
        Option::None => false,
        Option::Some((h, e)) => h == holder,
    }
}

/// The lease is live for `holder` at `now`: held by it and not expired.
pub open spec fn lease_live(l: Option<(Seq<char>, u64)>, holder: Seq<char>, now: u64) -> bool {
    match l {
        Option::None => false,
        Option::Some((h, e)) => h == holder && now <= e,
    }
}

/// Law: at most one process holds a live lease. While the lease is live
/// for one holder, no other holder can acquire or renew it, so only the
/// recorded holder can believe itself the writer.
pub proof fn lemma_lease_mutual_exclusion(
    l: Option<(Seq<char>, u64)>,
    holder: Seq<char>,
    other: Seq<char>,
    now: u64,
)
    requires
        lease_live(l, holder, now),
        other != holder,
    ensures
        !lease_acquirable(l, other, now),
        !lease_renewable(l, other),
{
}

/// Law: acquiring grants a lease live for the acquirer until the expiry,
/// and so, with the previous law, excludes every other holder until then.
pub proof fn lemma_acquire_grants_exclusive(
    holder: Seq<char>,
    other: Seq<char>,
    now: u64,
    ttl: u64,
    later: u64,
)
    requires
        now + ttl <= u64::MAX,
        later <= now + ttl,
        other != holder,
    ensures
        lease_live(Option::Some((holder, (now + ttl) as u64)), holder, later),
        !lease_acquirable(Option::Some((holder, (now + ttl) as u64)), other, later),
        !lease_renewable(Option::Some((holder, (now + ttl) as u64)), other),
{
}

impl Store {
    /// Relies on one immediate transaction over the `leader` table: insert
    /// the row if absent (with this holder and an expired stamp), then
    /// update it only where it is expired or already this holder's — the
    /// pure `lease_acquirable` decision on the row as it stands at that
    /// instant, which no name of this process's state can denote. Returns
    /// whether the row was taken; the content tables are untouched either
    /// way.
    #[verifier::external_body]
    pub fn lease_try_acquire(&mut self, name: &str, holder: &str, now_ms: u64, ttl_ms: u64) -> (r:
        Result<bool, IndexError>)
        requires
            !old(self).in_tx(),
            now_ms + ttl_ms <= MAX_STORE_TS,
        ensures
            !final(self).in_tx(),
            final(self).saved_state@ == old(self).saved_state@,
            files_of(final(self).conn) == files_of(old(self).conn),
            tris_of(final(self).conn) == tris_of(old(self).conn),
            postings_of(final(self).conn) == postings_of(old(self).conn),
            meta_of(final(self).conn) == meta_of(old(self).conn),
    {
        let r = self.conn.execute_batch("BEGIN IMMEDIATE")
            .and_then(|_| self.conn.execute("INSERT INTO leader (name, holder, expires_at_ms) VALUES (?1, ?2, -1) ON CONFLICT(name) DO NOTHING", (name, holder)))
            .and_then(|_| self.conn.execute("UPDATE leader SET holder = ?2, expires_at_ms = ?3 WHERE name = ?1 AND (expires_at_ms < ?4 OR holder = ?2)", (name, holder, (now_ms + ttl_ms) as i64, now_ms as i64)))
            .and_then(|n| self.conn.execute_batch("COMMIT").map(|_| n == 1));
        if r.is_err() {
            let _ = self.conn.execute_batch("ROLLBACK");
        }
        r.map_err(|e| IndexError::Db(e.to_string()))
    }

    /// Relies on one `UPDATE` of the `leader` table keyed by name and
    /// holder: extends the expiry only while this holder is still
    /// recorded — the pure `lease_renewable` decision on the row at that
    /// instant. Returns whether the row was still held; the content
    /// tables are untouched either way.
    #[verifier::external_body]
    pub fn lease_renew(&mut self, name: &str, holder: &str, now_ms: u64, ttl_ms: u64) -> (r:
        Result<bool, IndexError>)
        requires
            !old(self).in_tx(),
            now_ms + ttl_ms <= MAX_STORE_TS,
        ensures
            !final(self).in_tx(),
            final(self).saved_state@ == old(self).saved_state@,
            files_of(final(self).conn) == files_of(old(self).conn),
            tris_of(final(self).conn) == tris_of(old(self).conn),
            postings_of(final(self).conn) == postings_of(old(self).conn),
            meta_of(final(self).conn) == meta_of(old(self).conn),
    {
        let n = self.conn.execute(
            "UPDATE leader SET expires_at_ms = ?3 WHERE name = ?1 AND holder = ?2",
            (name, holder, (now_ms + ttl_ms) as i64),
        ).map_err(|e| IndexError::Db(e.to_string()))?;
        Ok(n == 1)
    }
}

/// The role a server process plays over one index.
#[derive(Debug, Clone, Copy, PartialEq, Eq, Structural)]
pub enum Role {
    /// Serves searches; attempts to take the lease.
    Reader,
    /// Holds the lease; owns the scanner, watcher and writer.
    Writer,
}

/// What one lease tick decides: the next role, whether writes are
/// enabled, whether the scanner and watcher should be launched now, and
/// whether readiness must be withdrawn.
#[derive(Debug, Clone, Copy, PartialEq, Eq, Structural)]
pub struct RoleStep {
    pub next: Role,
    pub write_enabled: bool,
    pub start_workers: bool,
    pub reset_ready: bool,
}

/// The role transition for one tick's lease outcome: a reader that
/// acquires the lease becomes the writer, enables writes and starts its
/// workers once; a reader that does not stays with writes disabled; a
/// writer that renews stays; a writer that fails to renew immediately
/// disables writes, withdraws readiness and steps down.
pub open spec fn role_step_spec(role: Role, lease_ok: bool) -> RoleStep {
    match role {
        Role::Reader => {
            if lease_ok {
                RoleStep { next: Role::Writer, write_enabled: true, start_workers: true, reset_ready: false }
            } else {
                RoleStep { next: Role::Reader, write_enabled: false, start_workers: false, reset_ready: false }
            }
        },
        Role::Writer => {
            if lease_ok {
                RoleStep { next: Role::Writer, write_enabled: true, start_workers: false, reset_ready: false }
            } else {
                RoleStep { next: Role::Reader, write_enabled: false, start_workers: false, reset_ready: true }
            }
        },
    }
}

/// Decide the role transition for one tick.
pub fn role_step(role: Role, lease_ok: bool) -> (r: RoleStep)
    ensures
        r == role_step_spec(role, lease_ok),
{
    match role {
        Role::Reader => {
            if lease_ok {
                RoleStep { next: Role::Writer, write_enabled: true, start_workers: true, reset_ready: false }
            } else {
                RoleStep { next: Role::Reader, write_enabled: false, start_workers: false, reset_ready: false }
            }
        },
        Role::Writer => {
            if lease_ok {
                RoleStep { next: Role::Writer, write_enabled: true, start_workers: false, reset_ready: false }
            } else {
                RoleStep { next: Role::Reader, write_enabled: false, start_workers: false, reset_ready: true }
            }
        },
    }
}

/// Law: a process's role is writer only on ticks whose lease call
/// succeeded, and writes are enabled exactly when the next role is
/// writer.
pub proof fn lemma_writer_needs_lease(role: Role, lease_ok: bool)
    ensures
        role_step_spec(role, lease_ok).next is Writer ==> lease_ok,
        role_step_spec(role, lease_ok).write_enabled == (role_step_spec(role, lease_ok).next
            is Writer),
{
}

} // verus!
