//! The fetch orchestrator's decisions: per-key deduplication through the
//! in-flight set, viewport re-validation, and the cache effects of each
//! possible outcome of a background load.

use std::collections::HashSet;

use vstd::prelude::*;

use crate::qtree::{key_enc, QTreeKey};

verus! {

broadcast use vstd::std_specs::hash::group_hash_axioms;

/// A durable tile store keyed by tile keys, to be provided by the host: a
/// byte buffer per key, existence as presence, best-effort deletion.
pub trait BinTileCache {
    fn save(&self, key: QTreeKey, value: &[u8]);

    fn load(&self, key: QTreeKey) -> Option<Vec<u8>>;

    fn exist(&self, key: QTreeKey) -> bool;

    fn delete(&self, key: QTreeKey);
}

/// The set of key encodings whose fetch is in flight: its membership is the
/// sole source of fetch deduplication.
pub struct LoadingSet {
    keys: HashSet<u64>,
}

impl View for LoadingSet {
    type V = Set<u64>;

    closed spec fn view(&self) -> Set<u64> {
        self.keys@
    }
}

impl LoadingSet {
    /// An empty in-flight set.
    pub fn new() -> (r: Self)
        ensures
            r@ == Set::<u64>::empty(),
    {
        Self { keys: HashSet::new() }
    }

    /// Whether a fetch for key is in flight.
    pub fn contains(&self, key: QTreeKey) -> (r: bool)
        ensures
            r == self@.contains(key_enc(key)),
    {
        self.keys.contains(&key.inner_key())
    }

    /// Marks a fetch for key as in flight.
    pub fn insert(&mut self, key: QTreeKey)
        ensures
            final(self)@ == old(self)@.insert(key_enc(key)),
    {
        self.keys.insert(key.inner_key());
    }

    /// Clears the in-flight marker for key.
    pub fn remove(&mut self, key: QTreeKey)
        ensures
            final(self)@ == old(self)@.remove(key_enc(key)),
    {
        self.keys.remove(&key.inner_key());
    }
}

/// What a cache miss turns into: the tile is already drawable, already being
/// fetched, or a new background task reading the durable cache or the
/// network.
#[derive(Debug, Clone, Copy, PartialEq, Eq, Structural)]
pub enum FetchPlan {
    UseMemory,
    Pending,
    LoadFromDisk,
    FetchFromNetwork,
}

/// The decision for one request, given the in-flight set and what the caller
/// observed: a memory hit is served at once; an in-flight key schedules
/// nothing; otherwise a task is scheduled, against the durable cache when one
/// is configured and holds the tile, else against the network.
pub open spec fn spec_plan(
    loading: Set<u64>,
    enc: u64,
    mem_hit: bool,
    has_disk_cache: bool,
    disk_exists: bool,
) -> FetchPlan {
    if mem_hit {
        FetchPlan::UseMemory
    } else if loading.contains(enc) {
        FetchPlan::Pending
    } else if has_disk_cache && disk_exists {
        FetchPlan::LoadFromDisk
    } else {
        FetchPlan::FetchFromNetwork
    }
}

/// The in-flight set after one request: the key is marked exactly when a new
/// task was scheduled.
pub open spec fn spec_plan_next(loading: Set<u64>, enc: u64, mem_hit: bool) -> Set<u64> {
    if !mem_hit && !loading.contains(enc) {
        loading.insert(enc)
    } else {
        loading
    }
}

/// Whether a plan schedules a background task.
pub open spec fn plan_schedules(p: FetchPlan) -> bool {
    p == FetchPlan::LoadFromDisk || p == FetchPlan::FetchFromNetwork
}

/// Decides one tile request and updates the in-flight set accordingly.
pub fn plan_fetch(
    loading: &mut LoadingSet,
    key: QTreeKey,
    mem_hit: bool,
    has_disk_cache: bool,
    disk_exists: bool,
) -> (r: FetchPlan)
    ensures
        r == spec_plan(old(loading)@, key_enc(key), mem_hit, has_disk_cache, disk_exists),
        final(loading)@ == spec_plan_next(old(loading)@, key_enc(key), mem_hit),
    {
    if mem_hit {
        return FetchPlan::UseMemory;
    }
    if loading.contains(key) {
        return FetchPlan::Pending;
    }
    loading.insert(key);
    if has_disk_cache && disk_exists {
        FetchPlan::LoadFromDisk
    } else {
        FetchPlan::FetchFromNetwork
    }
}

/// Clears the in-flight marker when a background task completes, whatever
/// its outcome was.
pub fn finish_fetch(loading: &mut LoadingSet, key: QTreeKey)
    ensures
        final(loading)@ == old(loading)@.remove(key_enc(key)),
{
    loading.remove(key);
}

/// Re-validates that a key is still inside the visible rectangle spanned by
/// the viewport's top-left and bottom-right keys.
pub fn key_in_view(key: QTreeKey, lt: QTreeKey, rb: QTreeKey) -> (r: bool)
    ensures
        r == (key.spec_depth() == lt.spec_depth() && lt.spec_x() <= key.spec_x() <= rb.spec_x()
            && lt.spec_y() <= key.spec_y() <= rb.spec_y()),
{
    key.depth() == lt.depth() && lt.x() <= key.x() && key.x() <= rb.x() && lt.y() <= key.y()
        && key.y() <= rb.y()
}

/// How a background task that loaded from the durable cache can end, once
/// the viewport was re-validated.
#[derive(Debug, Clone, Copy, PartialEq, Eq, Structural)]
pub enum DiskOutcome {
    NotVisible,
    Missing,
    DecodeOk,
    DecodeFailed,
}

/// How a background task that fetched from the network can end, once the
/// viewport was re-validated.
#[derive(Debug, Clone, Copy, PartialEq, Eq, Structural)]
pub enum NetworkOutcome {
    NotVisible,
    HttpFailed,
    DecodeOk,
    DecodeFailed,
}

/// The cache effects a completed background task must apply.
#[derive(Debug, Clone, Copy, PartialEq, Eq, Structural)]
pub struct CompletionEffects {
    pub delete_cache: bool,
    pub save_cache: bool,
    pub repaint: bool,
}

/// Effects of a disk-backed load: a repaint is requested whenever the key
/// was still visible, and a tile whose bytes no longer decode is purged from
/// the durable cache.
pub open spec fn spec_disk_effects(outcome: DiskOutcome) -> CompletionEffects {
    match outcome {
        DiskOutcome::NotVisible => CompletionEffects {
            delete_cache: false,
            save_cache: false,
            repaint: false,
        },
        DiskOutcome::Missing => CompletionEffects {
            delete_cache: false,
            save_cache: false,
            repaint: true,
        },
        DiskOutcome::DecodeOk => CompletionEffects {
            delete_cache: false,
            save_cache: false,
            repaint: true,
        },
        DiskOutcome::DecodeFailed => CompletionEffects {
            delete_cache: true,
            save_cache: false,
            repaint: true,
        },
    }
}

/// Effects of a network fetch: a decoded tile is saved to the durable cache
/// when one is configured; failed decodes purge a configured cache and
/// otherwise still trigger a repaint; transport failures mutate nothing.
pub open spec fn spec_network_effects(
    outcome: NetworkOutcome,
    has_disk_cache: bool,
) -> CompletionEffects {
    match outcome {
        NetworkOutcome::NotVisible => CompletionEffects {
            delete_cache: false,
            save_cache: false,
            repaint: false,
        },
        NetworkOutcome::HttpFailed => CompletionEffects {
            delete_cache: false,
            save_cache: false,
            repaint: false,
        },
        NetworkOutcome::DecodeOk => CompletionEffects {
            delete_cache: false,
            save_cache: has_disk_cache,
            repaint: true,
        },
        NetworkOutcome::DecodeFailed => CompletionEffects {
            delete_cache: has_disk_cache,
            save_cache: false,
            repaint: !has_disk_cache,
        },
    }
}

/// The effects a finished disk-backed load applies.
pub fn disk_effects(outcome: DiskOutcome) -> (r: CompletionEffects)
    ensures
        r == spec_disk_effects(outcome),
{
    match outcome {
        DiskOutcome::NotVisible => CompletionEffects {
            delete_cache: false,
            save_cache: false,
            repaint: false,
        },
        DiskOutcome::Missing => CompletionEffects {
            delete_cache: false,
            save_cache: false,
            repaint: true,
        },
        DiskOutcome::DecodeOk => CompletionEffects {
            delete_cache: false,
            save_cache: false,
            repaint: true,
        },
        DiskOutcome::DecodeFailed => CompletionEffects {
            delete_cache: true,
            save_cache: false,
            repaint: true,
        },
    }
}

/// The effects a finished network fetch applies.
pub fn network_effects(outcome: NetworkOutcome, has_disk_cache: bool) -> (r: CompletionEffects)
    ensures
        r == spec_network_effects(outcome, has_disk_cache),
{
    match outcome {
        NetworkOutcome::NotVisible => CompletionEffects {
            delete_cache: false,
            save_cache: false,
            repaint: false,
        },
        NetworkOutcome::HttpFailed => CompletionEffects {
            delete_cache: false,
            save_cache: false,
            repaint: false,
        },
        NetworkOutcome::DecodeOk => CompletionEffects {
            delete_cache: false,
            save_cache: has_disk_cache,
            repaint: true,
        },
        NetworkOutcome::DecodeFailed => CompletionEffects {
            delete_cache: has_disk_cache,
            save_cache: false,
            repaint: !has_disk_cache,
        },
    }
}

/// Concurrent requests for one missing tile are served by exactly one task:
/// the first request schedules a fetch and marks the key in flight, any
/// request issued while the key is in flight observes a pending fetch and
/// schedules nothing, and once the task completes and the marker is cleared
/// a further request on a still-missing tile schedules again.
pub proof fn lemma_fetch_dedup(
    loading: Set<u64>,
    enc: u64,
    has_disk_cache: bool,
    disk_exists1: bool,
    disk_exists2: bool,
    disk_exists3: bool,
)
    requires
        !loading.contains(enc),
    ensures
        plan_schedules(spec_plan(loading, enc, false, has_disk_cache, disk_exists1)),
        spec_plan_next(loading, enc, false) == loading.insert(enc),
        spec_plan(
            spec_plan_next(loading, enc, false),
            enc,
            false,
            has_disk_cache,
            disk_exists2,
        ) == FetchPlan::Pending,
        spec_plan_next(spec_plan_next(loading, enc, false), enc, false) == spec_plan_next(
            loading, enc, false),
        plan_schedules(
            spec_plan(
                spec_plan_next(loading, enc, false).remove(enc),
                enc,
                false,
                has_disk_cache,
                disk_exists3,
            ),
        ),
{
}

} // verus!
