use release_manager::MAX_RELEASES;
use release_manager::MIN_INTERVAL_SECONDS;
use release_manager::ReleaseManager;
use release_manager::ReleaseRecord;

const NOW: i64 = 1_700_000_000;
const DAY: i64 = 86_400;

fn create_release(days_ago: i64, id: u64) -> ReleaseRecord {
    ReleaseRecord {
        tag_name: format!("release-{}", id),
        created_at: NOW - days_ago * DAY,
        release_id: id,
    }
}

#[test]
fn test_push_normal_interval() {
    let r1 = create_release(20, 1);
    let r2 = create_release(10, 2);

    let mut manager = ReleaseManager::new(vec![r1.clone(), r2.clone()]);

    let new_release = create_release(0, 3);
    let deleted = manager.push_release(new_release);

    assert_eq!(deleted.len(), 0);
    assert_eq!(manager.get_releases().len(), 3);
}

#[test]
fn test_cleanup_sparse_releases() {
    // R1 (20 days ago), R2 (19 days ago), R3 (10 days ago)
    // R2 is < 7 days from R1. Should be deleted.
    let r1 = create_release(20, 1);
    let r2 = create_release(19, 2);
    let r3 = create_release(10, 3);

    let mut manager = ReleaseManager::new(vec![r1, r2.clone(), r3]);

    // Push R4 (0 days ago)
    let r4 = create_release(0, 4);
    let deleted = manager.push_release(r4);

    assert_eq!(deleted.len(), 1);
    assert_eq!(deleted[0].release_id, 2); // R2 deleted
    assert_eq!(manager.get_releases().len(), 3); // R1, R3, R4
}

#[test]
fn test_max_releases_limit() {
    // Create 7 releases with proper intervals (8 days)
    // R1: 56d, R2: 48d, ... R7: 8d
    let mut releases = Vec::new();
    for i in 0..7 {
        releases.push(create_release(56 - (i as i64 * 8), i as u64));
    }

    let mut manager = ReleaseManager::new(releases);
    assert_eq!(manager.get_releases().len(), 7);

    // Push new release
    let new_release = create_release(0, 100);
    let deleted = manager.push_release(new_release);

    assert_eq!(deleted.len(), 1);
    assert_eq!(deleted[0].release_id, 0); // Earliest (R1) should be deleted
    assert_eq!(manager.get_releases().len(), 7); // Still 7
}

#[test]
fn test_complex_cleanup_and_limit() {
    // Initial:
    // A (30d), B (29d), C (25d), D (15d)
    // B is too close to A.
    // C is too close to A? 30-25 = 5 < 7. Yes.
    // After A, next valid is D (30-15=15 > 7).
    // So B and C should be deleted.

    let a = create_release(30, 1);
    let b = create_release(29, 2);
    let c = create_release(25, 3);
    let d = create_release(15, 4);

    let mut manager = ReleaseManager::new(vec![a, b.clone(), c.clone(), d]);

    let e = create_release(0, 5);
    let deleted = manager.push_release(e);

    assert_eq!(deleted.len(), 2);
    // Deleted should be B and C
    let deleted_ids: Vec<u64> = deleted.iter().map(|r| r.release_id).collect();
    assert!(deleted_ids.contains(&2));
    assert!(deleted_ids.contains(&3));

    assert_eq!(manager.get_releases().len(), 3); // A, D, E
}

#[test]
fn test_empty_history() {
    let mut manager = ReleaseManager::new(Vec::new());
    assert_eq!(manager.get_releases().len(), 0);

    let r = create_release(0, 1);
    let deleted = manager.push_release(r);

    assert_eq!(deleted.len(), 0);
    assert_eq!(manager.get_releases().len(), 1);
    assert_eq!(manager.get_releases()[0].release_id, 1);
}

#[test]
fn test_boundary_exactly_seven_days() {
    // A gap of exactly the minimum interval is sufficient spacing.
    let r1 = create_release(14, 1);
    let r2 = create_release(7, 2);

    let mut manager = ReleaseManager::new(vec![r1, r2]);
    let deleted = manager.push_release(create_release(0, 3));

    assert_eq!(deleted.len(), 0);
    assert_eq!(manager.get_releases().len(), 3);
    assert_eq!(MIN_INTERVAL_SECONDS, 7 * DAY);
}

#[test]
fn test_boundary_one_second_short() {
    // One second under the minimum interval is not enough spacing.
    let r1 = create_release(14, 1);
    let mut r2 = create_release(7, 2);
    r2.created_at -= 1;

    let mut manager = ReleaseManager::new(vec![r1, r2]);
    let deleted = manager.push_release(create_release(0, 3));

    assert_eq!(deleted.len(), 1);
    assert_eq!(deleted[0].release_id, 2);
    assert_eq!(manager.get_releases().len(), 2);
}

#[test]
fn test_new_sorts_unordered_history() {
    let newest = create_release(1, 3);
    let oldest = create_release(40, 1);
    let middle = create_release(20, 2);

    let manager = ReleaseManager::new(vec![newest, oldest, middle]);

    let ids: Vec<u64> = manager.get_releases().iter().map(|r| r.release_id).collect();
    assert_eq!(ids, vec![1, 2, 3]);
}

#[test]
fn test_equal_timestamps_keep_input_order() {
    // The sort is stable: records sharing a creation time keep input order,
    // and the later duplicate falls to the interval rule on a push.
    let first = create_release(10, 1);
    let second = create_release(10, 2);

    let mut manager = ReleaseManager::new(vec![first, second]);
    let ids: Vec<u64> = manager.get_releases().iter().map(|r| r.release_id).collect();
    assert_eq!(ids, vec![1, 2]);

    let deleted = manager.push_release(create_release(0, 3));
    assert_eq!(deleted.len(), 1);
    assert_eq!(deleted[0].release_id, 2);
}

#[test]
fn test_new_record_exempt_from_spacing() {
    // The pushed record is always kept, even when it lands within the
    // minimum interval of the newest existing record.
    let r1 = create_release(1, 1);

    let mut manager = ReleaseManager::new(vec![r1]);
    let deleted = manager.push_release(create_release(0, 2));

    assert_eq!(deleted.len(), 0);
    let ids: Vec<u64> = manager.get_releases().iter().map(|r| r.release_id).collect();
    assert_eq!(ids, vec![1, 2]);
}

#[test]
fn test_cap_evicts_oldest_first() {
    // Eight well-spaced records: the cap must evict the two oldest to leave
    // room for the pushed one, and the kept count lands exactly at the cap.
    let mut releases = Vec::new();
    for i in 0..8 {
        releases.push(create_release(72 - (i as i64 * 8), i as u64));
    }

    let mut manager = ReleaseManager::new(releases);
    let deleted = manager.push_release(create_release(0, 100));

    assert_eq!(deleted.len(), 2);
    let deleted_ids: Vec<u64> = deleted.iter().map(|r| r.release_id).collect();
    assert!(deleted_ids.contains(&0));
    assert!(deleted_ids.contains(&1));
    assert_eq!(manager.get_releases().len(), MAX_RELEASES);
    assert_eq!(manager.get_releases()[MAX_RELEASES - 1].release_id, 100);
}

#[test]
fn test_kept_and_deleted_partition_input() {
    // Every input record plus the pushed one lands on exactly one side.
    let input_ids: Vec<u64> = vec![1, 2, 3, 4, 5];
    let releases: Vec<ReleaseRecord> = input_ids
        .iter()
        .map(|&id| create_release(40 - id as i64 * 6, id))
        .collect();

    let mut manager = ReleaseManager::new(releases);
    let deleted = manager.push_release(create_release(0, 6));

    let mut seen: Vec<u64> = manager
        .get_releases()
        .iter()
        .chain(deleted.iter())
        .map(|r| r.release_id)
        .collect();
    seen.sort();
    assert_eq!(seen, vec![1, 2, 3, 4, 5, 6]);
}

#[test]
fn test_kept_ascending_after_push() {
    let r1 = create_release(30, 1);
    let r2 = create_release(10, 2);

    let mut manager = ReleaseManager::new(vec![r2, r1]);
    manager.push_release(create_release(0, 3));

    let kept = manager.get_releases();
    for w in kept.windows(2) {
        assert!(w[0].created_at <= w[1].created_at);
    }
    assert_eq!(kept.last().unwrap().release_id, 3);
}
