//! Leases, the time to reclaim, and file systems that have moved.

use nfsembed::codec::ExportId;
use nfsembed::lease::{LeaseTable, MovedLeaseTracker, RecoveryState};
use nfsembed::protocol::NfsStatus;

#[test]
fn moved_export_tracker_is_explicitly_bounded() {
    let mut tracker = MovedLeaseTracker::new(1, 10);
    assert_eq!(tracker.note(1, ExportId(1), 0), Ok(()));
    assert_eq!(tracker.note(1, ExportId(2), 1), Err(NfsStatus::Resource));
    assert!(!tracker.has_live(1, 20));
    assert_eq!(tracker.note(1, ExportId(1), 20), Ok(()));
    assert!(!tracker.has_live(1, 20));
    assert_eq!(tracker.note(1, ExportId(2), 20), Err(NfsStatus::Resource));
    assert_eq!(tracker.entries(), 1);
}

#[test]
fn a_notice_lasts_two_lease_periods_and_is_not_refreshed() {
    let mut tracker = MovedLeaseTracker::new(4, 10);
    assert_eq!(tracker.note(1, ExportId(1), 5), Ok(()));
    assert_eq!(tracker.note(1, ExportId(1), 24), Ok(()));
    assert!(tracker.has_live(1, 24));
    assert!(!tracker.has_live(1, 25));
    assert_eq!(tracker.entries(), 1);
}

#[test]
fn a_probe_clears_one_notice() {
    let mut tracker = MovedLeaseTracker::new(4, 10);
    assert_eq!(tracker.note(1, ExportId(1), 0), Ok(()));
    assert_eq!(tracker.note(1, ExportId(2), 0), Ok(()));
    assert!(tracker.clear(1, ExportId(1)));
    assert!(!tracker.clear(1, ExportId(1)));
    assert!(tracker.has_live(1, 1));
    assert!(tracker.clear(1, ExportId(2)));
    assert!(!tracker.has_live(1, 1));
    assert!(!tracker.has_client(1));
}

#[test]
fn a_lease_is_over_once_its_time_has_passed() {
    assert!(LeaseTable::new(0).is_none());
    let mut leases = LeaseTable::new(10).unwrap();
    assert!(!leases.is_active(1, 0));
    assert!(leases.touch(1, 0));
    assert!(leases.is_active(1, 9));
    assert!(!leases.is_active(1, 10));
    assert!(!leases.touch(1, 10));
    assert_eq!(leases.expire_due(10), vec![1]);
    assert!(leases.expire_due(10).is_empty());
}

#[test]
fn state_is_reclaimed_in_the_grace_period_and_only_there() {
    let mut recovery = RecoveryState::reject_reclaims();
    assert_eq!(recovery.allow(1, false, 0), Ok(()));
    assert_eq!(recovery.allow(1, true, 0), Err(NfsStatus::NoGrace));
    recovery.begin_grace(0, 10);
    assert!(recovery.in_grace(9));
    assert!(!recovery.in_grace(10));
    assert!(recovery.cleanup_due(10));
    assert_eq!(recovery.allow(1, false, 9), Err(NfsStatus::Grace));
    assert_eq!(recovery.allow(1, true, 9), Err(NfsStatus::ReclaimBad));
    recovery.add_reclaimable(1);
    assert_eq!(recovery.allow(1, true, 9), Ok(()));
    recovery.complete_client_reclaim(1);
    assert_eq!(recovery.allow(1, true, 9), Err(NfsStatus::ReclaimBad));
    recovery.begin_grace(2, 3);
    assert!(recovery.in_grace(9));
    recovery.end_grace();
    assert!(!recovery.in_grace(0));
    assert!(!recovery.cleanup_due(100));
}
