use quest_lock::join::{group_join_rows, locks_from_join_rows, FlatLockQuestRow};
use quest_lock::lock::Lock;
use quest_lock::quest::{Quest, QuestStatus, QuestType};
use quest_lock::store::{MemoryStore, StoreError};

fn quest(id: u128, lock_id: u128, share: &str, t: QuestType, status: QuestStatus) -> Quest {
    Quest {
        id,
        lock_id,
        share: share.to_string(),
        quest_type: t,
        status,
        data: vec![("k".to_string(), format!("v{}", id))],
    }
}

fn lock(id: u128, owner: &str, quests: Vec<Quest>) -> Lock {
    Lock {
        id,
        user_id: owner.to_string(),
        label: Some(format!("label {}", id)),
        total_shares: 5,
        threshold: 3,
        quests,
    }
}

fn same_quest(a: &Quest, b: &Quest) -> bool {
    a.id == b.id
        && a.lock_id == b.lock_id
        && a.share == b.share
        && a.quest_type == b.quest_type
        && a.status == b.status
        && a.data == b.data
}

fn same_lock(a: &Lock, b: &Lock) -> bool {
    a.id == b.id
        && a.user_id == b.user_id
        && a.label == b.label
        && a.total_shares == b.total_shares
        && a.threshold == b.threshold
        && a.quests.len() == b.quests.len()
        && a.quests.iter().zip(b.quests.iter()).all(|(x, y)| same_quest(x, y))
}

fn row(lock_id: u128, owner: &str, quest_id: Option<u128>, quest_type: Option<&str>) -> FlatLockQuestRow {
    FlatLockQuestRow {
        lock_id,
        lock_user_id: owner.to_string(),
        lock_label: None,
        lock_total_shares: 4,
        lock_threshold: 2,
        quest_id,
        quest_share: quest_id.map(|_| "s".to_string()),
        quest_type: quest_type.map(|t| t.to_string()),
        quest_status: quest_id.map(|_| "PENDING".to_string()),
        quest_data: quest_id.map(|_| "{}".to_string()),
    }
}

#[test]
fn round_trip_without_quests() {
    let mut store = MemoryStore::new();
    let l = lock(10, "alice", vec![]);
    assert!(store.save(&l));
    let back = store.get_by_id(10).unwrap();
    assert!(same_lock(&back, &l));
}

#[test]
fn round_trip_with_quests_in_ascending_order() {
    let mut store = MemoryStore::new();
    let other = lock(5, "bob", vec![quest(2, 5, "b", QuestType::GEO, QuestStatus::PENDING)]);
    store.save(&other);
    let l = lock(
        10,
        "alice",
        vec![
            quest(1, 10, "x", QuestType::GEO, QuestStatus::PENDING),
            quest(3, 10, "y", QuestType::TIME, QuestStatus::COMPLETED),
            quest(4, 10, "z", QuestType::PAYWALL, QuestStatus::PENDING),
        ],
    );
    store.save(&l);
    let back = store.get_by_id(10).unwrap();
    assert!(same_lock(&back, &l));
    assert!(same_lock(&store.get_by_id(5).unwrap(), &other));
}

#[test]
fn absent_lock_reads_as_none() {
    let store = MemoryStore::new();
    assert!(store.get_by_id(1).is_none());
}

#[test]
fn second_save_only_updates_status() {
    let mut store = MemoryStore::new();
    store.save(&lock(10, "alice", vec![quest(1, 10, "original", QuestType::GEO, QuestStatus::PENDING)]));
    let mut changed = lock(10, "alice", vec![quest(1, 10, "forged", QuestType::PAYWALL, QuestStatus::COMPLETED)]);
    changed.quests[0].data = vec![];
    store.save(&changed);
    let back = store.get_by_id(10).unwrap();
    assert_eq!(back.quests.len(), 1);
    assert_eq!(back.quests[0].share, "original");
    assert_eq!(back.quests[0].quest_type, QuestType::GEO);
    assert_eq!(back.quests[0].data, vec![("k".to_string(), "v1".to_string())]);
    assert_eq!(back.quests[0].status, QuestStatus::COMPLETED);
}

#[test]
fn second_save_updates_label_only() {
    let mut store = MemoryStore::new();
    store.save(&lock(10, "alice", vec![]));
    let mut changed = lock(10, "mallory", vec![]);
    changed.label = None;
    changed.total_shares = 9;
    store.save(&changed);
    let back = store.get_by_id(10).unwrap();
    assert_eq!(back.label, None);
    assert_eq!(back.user_id, "alice");
    assert_eq!(back.total_shares, 5);
}

#[test]
fn owner_without_locks_reads_empty_list() {
    let mut store = MemoryStore::new();
    store.save(&lock(10, "alice", vec![]));
    assert!(store.get_by_user_id("bob").is_empty());
    assert_eq!(store.get_by_user_id("alice").len(), 1);
}

#[test]
fn delete_removes_lock_and_its_quests() {
    let mut store = MemoryStore::new();
    let l = lock(10, "alice", vec![quest(1, 10, "x", QuestType::GEO, QuestStatus::PENDING)]);
    store.save(&l);
    store.save(&lock(11, "alice", vec![quest(2, 11, "y", QuestType::GEO, QuestStatus::PENDING)]));
    assert!(store.delete(&l));
    assert!(store.get_by_id(10).is_none());
    assert!(!store.delete(&l));
    // The quest row went with the lock: a new lock with the same id has none.
    store.save(&lock(10, "alice", vec![]));
    assert_eq!(store.get_by_id(10).unwrap().quests.len(), 0);
    assert_eq!(store.get_by_id(11).unwrap().quests.len(), 1);
}

#[test]
fn appends_from_one_snapshot_both_persist() {
    let mut store = MemoryStore::new();
    store.save(&lock(10, "alice", vec![]));
    let snapshot_a = store.get_by_id(10).unwrap();
    let snapshot_b = store.get_by_id(10).unwrap();
    let qa = Quest::create(snapshot_a.id, "a".to_string(), QuestType::GEO, None, vec![]);
    let qb = Quest::create(snapshot_b.id, "b".to_string(), QuestType::TIME, None, vec![]);
    assert_eq!(store.append_quest(&qa), Ok(()));
    assert_eq!(store.append_quest(&qb), Ok(()));
    let back = store.get_by_id(10).unwrap();
    assert_eq!(back.quests.len(), 2);
    assert!(back.quests.iter().any(|q| q.id == qa.id));
    assert!(back.quests.iter().any(|q| q.id == qb.id));
}

#[test]
fn append_with_taken_id_fails_explicitly() {
    let mut store = MemoryStore::new();
    store.save(&lock(10, "alice", vec![]));
    let q = quest(1, 10, "a", QuestType::GEO, QuestStatus::PENDING);
    assert_eq!(store.append_quest(&q), Ok(()));
    assert_eq!(store.append_quest(&q), Err(StoreError::QuestExists));
}

#[test]
fn append_to_absent_lock_fails() {
    let mut store = MemoryStore::new();
    let q = quest(1, 10, "a", QuestType::GEO, QuestStatus::PENDING);
    assert_eq!(store.append_quest(&q), Err(StoreError::LockMissing));
}

#[test]
fn join_rows_group_in_first_seen_order() {
    let rows = vec![
        row(30, "alice", Some(1), Some("GEO")),
        row(20, "alice", None, None),
        row(30, "alice", Some(2), Some("time")),
        row(10, "alice", Some(3), Some("FRIEND")),
    ];
    let locks = locks_from_join_rows(rows).unwrap();
    assert_eq!(locks.iter().map(|l| l.id).collect::<Vec<_>>(), vec![30, 20, 10]);
    assert_eq!(locks[0].quests.iter().map(|q| q.id).collect::<Vec<_>>(), vec![1, 2]);
    assert_eq!(locks[0].quests[1].quest_type, QuestType::TIME);
    assert_eq!(locks[1].quests.len(), 0);
    assert_eq!(locks[2].quests.len(), 1);
}

#[test]
fn questless_lock_appears_once_with_no_quests() {
    let locks = locks_from_join_rows(vec![row(20, "alice", None, None)]).unwrap();
    assert_eq!(locks.len(), 1);
    assert_eq!(locks[0].id, 20);
    assert_eq!(locks[0].quests.len(), 0);
    assert_eq!(locks[0].total_shares, 4);
    assert_eq!(locks[0].threshold, 2);
}

#[test]
fn absent_quest_id_ignores_other_quest_columns() {
    let mut r = row(20, "alice", None, Some("BOGUS"));
    r.quest_share = Some("s".to_string());
    let locks = locks_from_join_rows(vec![r]).unwrap();
    assert_eq!(locks[0].quests.len(), 0);
}

#[test]
fn quest_id_with_missing_columns_fails() {
    let mut r = row(20, "alice", Some(1), Some("GEO"));
    r.quest_status = None;
    assert!(group_join_rows(vec![r]).is_err());
}

#[test]
fn malformed_joined_quest_fails_the_read() {
    let rows = vec![row(20, "alice", Some(1), Some("GEO")), row(21, "alice", Some(2), Some("BOGUS"))];
    assert!(locks_from_join_rows(rows).is_err());
}

#[test]
fn empty_join_read_gives_no_locks() {
    assert!(locks_from_join_rows(vec![]).unwrap().is_empty());
}

#[test]
fn owner_read_lists_locks_in_ascending_id_order() {
    let mut store = MemoryStore::new();
    store.save(&lock(30, "alice", vec![]));
    store.save(&lock(10, "alice", vec![]));
    store.save(&lock(25, "bob", vec![]));
    store.save(&lock(20, "alice", vec![]));
    let ids: Vec<u128> = store.get_by_user_id("alice").iter().map(|l| l.id).collect();
    assert_eq!(ids, vec![10, 20, 30]);
}

#[test]
fn questless_lock_listed_once_for_owner() {
    let mut store = MemoryStore::new();
    store.save(&lock(10, "alice", vec![quest(1, 10, "x", QuestType::GEO, QuestStatus::PENDING)]));
    store.save(&lock(20, "alice", vec![]));
    let locks = store.get_by_user_id("alice");
    let found: Vec<&Lock> = locks.iter().filter(|l| l.id == 20).collect();
    assert_eq!(found.len(), 1);
    assert!(found[0].quests.is_empty());
}
