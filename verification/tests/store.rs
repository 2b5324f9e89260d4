//! The storage engine: writes, reads, expiration bookkeeping, the purge
//! pass, and the wake-the-reaper signal.
use walrus::db::{Data, Db};

#[test]
fn set_then_get() {
    let mut db = Db::new();
    let notify = db.set(b"k".to_vec(), Data::Bytes(b"v".to_vec()), None, 0);
    assert!(!notify);
    assert_eq!(db.get(b"k"), Some(&Data::Bytes(b"v".to_vec())));
    assert_eq!(db.get(b"missing"), None);
}

#[test]
fn set_overwrites() {
    let mut db = Db::new();
    db.set(b"k".to_vec(), Data::Bytes(b"one".to_vec()), None, 0);
    db.set(b"k".to_vec(), Data::Integer(2), None, 0);
    assert_eq!(db.get(b"k"), Some(&Data::Integer(2)));
}

#[test]
fn purge_respects_deadlines() {
    let mut db = Db::new();
    db.set(b"k".to_vec(), Data::Bytes(b"v".to_vec()), Some(1000), 0);
    assert_eq!(db.next_expiration(), Some(1000));
    // Before the deadline nothing may be purged: never early expiry.
    let next = db.purge_expired_keys(999);
    assert_eq!(next, Some(1000));
    assert_eq!(db.get(b"k"), Some(&Data::Bytes(b"v".to_vec())));
    // Past the deadline the key and its index entry go.
    let next = db.purge_expired_keys(1001);
    assert_eq!(next, None);
    assert_eq!(db.get(b"k"), None);
    assert_eq!(db.next_expiration(), None);
}

#[test]
fn earlier_deadline_asks_for_wakeup() {
    let mut db = Db::new();
    let n1 = db.set(b"slow".to_vec(), Data::Integer(1), Some(10_000), 0);
    // First tracked deadline: the reaper must learn of it.
    assert!(n1);
    let n2 = db.set(b"slower".to_vec(), Data::Integer(2), Some(20_000), 0);
    // A later deadline changes nothing about the next wake-up.
    assert!(!n2);
    let n3 = db.set(b"fast".to_vec(), Data::Integer(3), Some(1_000), 0);
    // A deadline before the pending earliest one must wake the reaper.
    assert!(n3);
    assert_eq!(db.next_expiration(), Some(1_000));
    // The reaper then purges by the shorter deadline, not the original.
    let next = db.purge_expired_keys(1_500);
    assert_eq!(next, Some(10_000));
    assert_eq!(db.get(b"fast"), None);
    assert_eq!(db.get(b"slow"), Some(&Data::Integer(1)));
}

#[test]
fn overwrite_drops_stale_deadline() {
    let mut db = Db::new();
    db.set(b"k".to_vec(), Data::Integer(1), Some(500), 0);
    db.set(b"k".to_vec(), Data::Integer(2), None, 0);
    assert_eq!(db.next_expiration(), None);
    db.purge_expired_keys(1_000_000);
    assert_eq!(db.get(b"k"), Some(&Data::Integer(2)));
}

#[test]
fn two_keys_sharing_a_deadline() {
    let mut db = Db::new();
    db.set(b"a".to_vec(), Data::Integer(1), Some(100), 0);
    db.set(b"b".to_vec(), Data::Integer(2), Some(100), 0);
    assert_eq!(db.next_expiration(), Some(100));
    db.purge_expired_keys(100);
    assert_eq!(db.get(b"a"), None);
    assert_eq!(db.get(b"b"), None);
}

#[test]
fn rpush_creates_appends_and_conflicts() {
    let mut db = Db::new();
    let n = db.rpush(b"l".to_vec(), vec![Data::Integer(1), Data::Integer(2)]);
    assert_eq!(n, 2);
    let n = db.rpush(b"l".to_vec(), vec![Data::Integer(3)]);
    assert_eq!(n, 3);
    assert_eq!(
        db.get(b"l"),
        Some(&Data::Array(vec![
            Data::Integer(1),
            Data::Integer(2),
            Data::Integer(3),
        ]))
    );
    // A key holding plain bytes is a conflict: zero, nothing changed.
    db.set(b"s".to_vec(), Data::Bytes(b"v".to_vec()), None, 0);
    let n = db.rpush(b"s".to_vec(), vec![Data::Integer(9)]);
    assert_eq!(n, 0);
    assert_eq!(db.get(b"s"), Some(&Data::Bytes(b"v".to_vec())));
}

#[test]
fn rpush_keeps_the_list_deadline() {
    let mut db = Db::new();
    db.rpush(b"l".to_vec(), vec![Data::Integer(1)]);
    assert_eq!(db.next_expiration(), None);
}

#[test]
fn shutdown_stops_purging() {
    let mut db = Db::new();
    db.set(b"k".to_vec(), Data::Integer(1), Some(10), 0);
    assert!(!db.is_shutdown());
    db.shutdown_purge_task();
    assert!(db.is_shutdown());
    // A purge while shutting down does nothing and yields no deadline.
    assert_eq!(db.purge_expired_keys(1_000), None);
    assert_eq!(db.get(b"k"), Some(&Data::Integer(1)));
}

#[test]
fn deadline_saturates_at_the_largest_instant() {
    let mut db = Db::new();
    db.set(b"k".to_vec(), Data::Integer(1), Some(u64::MAX), 5);
    assert_eq!(db.next_expiration(), Some(u64::MAX));
    let next = db.purge_expired_keys(u64::MAX - 1);
    assert_eq!(next, Some(u64::MAX));
    assert_eq!(db.get(b"k"), Some(&Data::Integer(1)));
}
