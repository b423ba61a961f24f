use rustitude::fetch::{
    disk_effects, finish_fetch, key_in_view, network_effects, plan_fetch, CompletionEffects,
    DiskOutcome, FetchPlan, LoadingSet, NetworkOutcome,
};
use rustitude::qtree::QTreeKey;

#[test]
fn concurrent_requests_schedule_one_task() {
    let mut loading = LoadingSet::new();
    let k = QTreeKey::new(8, 100, 200).unwrap();
    // first request on a miss schedules a network fetch
    let first = plan_fetch(&mut loading, k, false, false, false);
    assert_eq!(first, FetchPlan::FetchFromNetwork);
    assert!(loading.contains(k));
    // a second identical request observes the in-flight marker
    let second = plan_fetch(&mut loading, k, false, false, false);
    assert_eq!(second, FetchPlan::Pending);
    // after completion the marker is gone and a third request schedules again
    finish_fetch(&mut loading, k);
    assert!(!loading.contains(k));
    let third = plan_fetch(&mut loading, k, false, false, false);
    assert_eq!(third, FetchPlan::FetchFromNetwork);
}

#[test]
fn plan_prefers_memory_then_disk() {
    let mut loading = LoadingSet::new();
    let k = QTreeKey::new(3, 1, 2).unwrap();
    assert_eq!(plan_fetch(&mut loading, k, true, true, true), FetchPlan::UseMemory);
    assert!(!loading.contains(k));
    assert_eq!(plan_fetch(&mut loading, k, false, true, true), FetchPlan::LoadFromDisk);
    finish_fetch(&mut loading, k);
    assert_eq!(plan_fetch(&mut loading, k, false, true, false), FetchPlan::FetchFromNetwork);
    finish_fetch(&mut loading, k);
    // a tile on disk is ignored when no durable cache is configured
    assert_eq!(plan_fetch(&mut loading, k, false, false, true), FetchPlan::FetchFromNetwork);
}

#[test]
fn markers_are_tracked_per_key() {
    let mut loading = LoadingSet::new();
    let a = QTreeKey::new(4, 1, 1).unwrap();
    let b = QTreeKey::new(4, 1, 2).unwrap();
    plan_fetch(&mut loading, a, false, false, false);
    assert!(loading.contains(a));
    assert!(!loading.contains(b));
    plan_fetch(&mut loading, b, false, false, false);
    finish_fetch(&mut loading, a);
    assert!(!loading.contains(a));
    assert!(loading.contains(b));
}

#[test]
fn viewport_revalidation() {
    let lt = QTreeKey::new(5, 2, 3).unwrap();
    let rb = QTreeKey::new(5, 6, 7).unwrap();
    assert!(key_in_view(QTreeKey::new(5, 2, 3).unwrap(), lt, rb));
    assert!(key_in_view(QTreeKey::new(5, 6, 7).unwrap(), lt, rb));
    assert!(key_in_view(QTreeKey::new(5, 4, 5).unwrap(), lt, rb));
    assert!(!key_in_view(QTreeKey::new(5, 1, 5).unwrap(), lt, rb));
    assert!(!key_in_view(QTreeKey::new(5, 4, 8).unwrap(), lt, rb));
    // a key of another depth is never in view
    assert!(!key_in_view(QTreeKey::new(4, 4, 5).unwrap(), lt, rb));
}

#[test]
fn disk_task_effects() {
    let no_effect = CompletionEffects { delete_cache: false, save_cache: false, repaint: false };
    assert_eq!(disk_effects(DiskOutcome::NotVisible), no_effect);
    // a visible tile always triggers a repaint, even when the file vanished
    assert_eq!(
        disk_effects(DiskOutcome::Missing),
        CompletionEffects { delete_cache: false, save_cache: false, repaint: true }
    );
    assert_eq!(
        disk_effects(DiskOutcome::DecodeOk),
        CompletionEffects { delete_cache: false, save_cache: false, repaint: true }
    );
    // a corrupt cache file is purged so the next pass refetches
    assert_eq!(
        disk_effects(DiskOutcome::DecodeFailed),
        CompletionEffects { delete_cache: true, save_cache: false, repaint: true }
    );
}

#[test]
fn network_task_effects() {
    let no_effect = CompletionEffects { delete_cache: false, save_cache: false, repaint: false };
    assert_eq!(network_effects(NetworkOutcome::NotVisible, true), no_effect);
    // transport failures mutate no cache
    assert_eq!(network_effects(NetworkOutcome::HttpFailed, true), no_effect);
    assert_eq!(network_effects(NetworkOutcome::HttpFailed, false), no_effect);
    // a decoded tile is persisted only when a durable cache is configured
    assert_eq!(
        network_effects(NetworkOutcome::DecodeOk, true),
        CompletionEffects { delete_cache: false, save_cache: true, repaint: true }
    );
    assert_eq!(
        network_effects(NetworkOutcome::DecodeOk, false),
        CompletionEffects { delete_cache: false, save_cache: false, repaint: true }
    );
    assert_eq!(
        network_effects(NetworkOutcome::DecodeFailed, true),
        CompletionEffects { delete_cache: true, save_cache: false, repaint: false }
    );
    assert_eq!(
        network_effects(NetworkOutcome::DecodeFailed, false),
        CompletionEffects { delete_cache: false, save_cache: false, repaint: true }
    );
}
