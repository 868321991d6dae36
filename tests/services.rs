use quest_lock::errors::AppError;
use quest_lock::services::{LockQueryService, LockService};
use quest_lock::store::MemoryStore;

fn data() -> Vec<(String, String)> {
    vec![("lat".to_string(), "1.5".to_string())]
}

#[test]
fn create_lock_stores_an_empty_lock() {
    let service = LockService::create();
    let query = LockQueryService::create();
    let mut repo = MemoryStore::new();
    let dto = service.create_lock(&mut repo, "alice".to_string(), Some("mine".to_string()), 5, 3).unwrap();
    assert_eq!(dto.label, Some("mine".to_string()));
    assert_eq!(dto.total_shares, 5);
    assert_eq!(dto.threshold, 3);
    assert!(dto.quests.is_empty());
    assert_eq!(dto.id.len(), 36);
    let back = query.get_lock_by_id(&repo, "alice".to_string(), dto.id.clone()).unwrap();
    assert_eq!(back.id, dto.id);
}

#[test]
fn threshold_above_total_is_refused() {
    let service = LockService::create();
    let mut repo = MemoryStore::new();
    let r = service.create_lock(&mut repo, "alice".to_string(), None, 2, 3);
    assert!(matches!(r, Err(AppError::ValidationError(_))));
    assert!(repo.get_by_user_id("alice").is_empty());
    let r = service.create_lock_with_quests(&mut repo, "alice".to_string(), None, 2, 3, vec![]);
    assert!(matches!(r, Err(AppError::ValidationError(_))));
}

#[test]
fn threshold_equal_to_total_is_accepted() {
    let service = LockService::create();
    let mut repo = MemoryStore::new();
    assert!(service.create_lock(&mut repo, "alice".to_string(), None, 3, 3).is_ok());
}

#[test]
fn create_with_quests_builds_whole_aggregate() {
    let service = LockService::create();
    let query = LockQueryService::create();
    let mut repo = MemoryStore::new();
    let quests = vec![
        ("s1".to_string(), "GEO".to_string(), data()),
        ("s2".to_string(), "paywall".to_string(), vec![]),
    ];
    let dto = service
        .create_lock_with_quests(&mut repo, "alice".to_string(), None, 2, 1, quests)
        .unwrap();
    assert_eq!(dto.quests.len(), 2);
    assert_eq!(dto.quests[0].share, Some("s1".to_string()));
    assert_eq!(dto.quests[0].quest_type, "GEO");
    assert_eq!(dto.quests[0].status, "PENDING");
    assert_eq!(dto.quests[0].data, data());
    assert_eq!(dto.quests[1].quest_type, "PAYWALL");
    assert_eq!(dto.quests[0].lock_id, dto.id);
    assert_eq!(dto.quests[1].lock_id, dto.id);
    let back = query.get_lock_by_id(&repo, "alice".to_string(), dto.id.clone()).unwrap();
    assert_eq!(back.quests.len(), 2);
    assert_eq!(back.quests[0].id, dto.quests[0].id);
    assert_eq!(back.quests[1].id, dto.quests[1].id);
}

#[test]
fn create_with_unknown_quest_type_is_refused() {
    let service = LockService::create();
    let mut repo = MemoryStore::new();
    let quests = vec![("s1".to_string(), "RIDDLE".to_string(), vec![])];
    let r = service.create_lock_with_quests(&mut repo, "alice".to_string(), None, 2, 1, quests);
    assert!(matches!(r, Err(AppError::ValidationError(_))));
    assert!(repo.get_by_user_id("alice").is_empty());
}

#[test]
fn aggregate_with_descending_quest_ids_is_an_internal_error() {
    let service = LockService::create();
    let quests = vec![
        ("s1".to_string(), "GEO".to_string(), vec![]),
        ("s2".to_string(), "GEO".to_string(), vec![]),
    ];
    let r = service.new_aggregate(100, &vec![5, 4], "alice".to_string(), None, 2, 1, &quests);
    assert!(matches!(r, Err(AppError::InternalError)));
    let ok = service.new_aggregate(100, &vec![4, 5], "alice".to_string(), None, 2, 1, &quests).unwrap();
    assert_eq!(ok.id, 100);
    assert_eq!(ok.quests[0].id, 4);
    assert_eq!(ok.quests[1].lock_id, 100);
}

#[test]
fn plan_quest_appends_a_pending_quest() {
    let service = LockService::create();
    let mut repo = MemoryStore::new();
    let created = service.create_lock(&mut repo, "alice".to_string(), None, 3, 2).unwrap();
    let dto = service
        .plan_quest(&mut repo, created.id.clone(), "share".to_string(), "friend".to_string(), data())
        .unwrap();
    assert_eq!(dto.id, created.id);
    assert_eq!(dto.quests.len(), 1);
    assert_eq!(dto.quests[0].quest_type, "FRIEND");
    assert_eq!(dto.quests[0].status, "PENDING");
    assert_eq!(dto.quests[0].share, Some("share".to_string()));
}

#[test]
fn two_plans_against_one_lock_both_persist() {
    let service = LockService::create();
    let query = LockQueryService::create();
    let mut repo = MemoryStore::new();
    let created = service.create_lock(&mut repo, "alice".to_string(), None, 3, 2).unwrap();
    let a = service.plan_quest(&mut repo, created.id.clone(), "a".to_string(), "GEO".to_string(), vec![]).unwrap();
    let b = service.plan_quest(&mut repo, created.id.clone(), "b".to_string(), "TIME".to_string(), vec![]).unwrap();
    let back = query.get_lock_by_id(&repo, "alice".to_string(), created.id.clone()).unwrap();
    assert_eq!(back.quests.len(), 2);
    assert!(back.quests.iter().any(|q| q.id == a.quests[0].id));
    assert!(back.quests.iter().any(|q| q.share == Some("b".to_string())));
    assert_eq!(b.quests.len(), 2);
}

#[test]
fn plan_quest_with_unknown_type_is_refused() {
    let service = LockService::create();
    let mut repo = MemoryStore::new();
    let created = service.create_lock(&mut repo, "alice".to_string(), None, 3, 2).unwrap();
    let r = service.plan_quest(&mut repo, created.id, "s".to_string(), "RIDDLE".to_string(), vec![]);
    assert!(matches!(r, Err(AppError::ValidationError(_))));
}

#[test]
fn plan_quest_with_malformed_id_is_refused() {
    let service = LockService::create();
    let mut repo = MemoryStore::new();
    let r = service.plan_quest(&mut repo, "not-an-id".to_string(), "s".to_string(), "GEO".to_string(), vec![]);
    assert_eq!(r.err(), Some(AppError::ValidationError("not-an-id".to_string())));
}

#[test]
fn plan_quest_on_absent_lock_is_not_found() {
    let service = LockService::create();
    let mut repo = MemoryStore::new();
    let r = service.plan_quest(
        &mut repo,
        "550e8400-e29b-41d4-a716-446655440000".to_string(),
        "s".to_string(),
        "GEO".to_string(),
        vec![],
    );
    assert!(matches!(r, Err(AppError::NotFound(_))));
}

#[test]
fn wrong_owner_is_unauthorised_not_not_found() {
    let service = LockService::create();
    let query = LockQueryService::create();
    let mut repo = MemoryStore::new();
    let created = service.create_lock(&mut repo, "alice".to_string(), None, 3, 2).unwrap();
    let r = query.get_lock_by_id(&repo, "mallory".to_string(), created.id);
    assert!(matches!(r, Err(AppError::Unauthorised(_))));
}

#[test]
fn absent_lock_is_not_found_for_reader() {
    let query = LockQueryService::create();
    let repo = MemoryStore::new();
    let r = query.get_lock_by_id(&repo, "alice".to_string(), "550e8400-e29b-41d4-a716-446655440000".to_string());
    assert!(matches!(r, Err(AppError::NotFound(_))));
}

#[test]
fn malformed_lock_id_is_a_validation_error_for_reader() {
    let query = LockQueryService::create();
    let repo = MemoryStore::new();
    let r = query.get_lock_by_id(&repo, "alice".to_string(), "xyz".to_string());
    assert_eq!(r.err(), Some(AppError::ValidationError("xyz".to_string())));
}

#[test]
fn parse_id_accepts_uuid_text() {
    let service = LockService::create();
    assert_eq!(
        service._parse_id("a1a2a3a4-b1b2-c1c2-d1d2-d3d4d5d6d7d8"),
        Ok(0xa1a2a3a4b1b2c1c2d1d2d3d4d5d6d7d8)
    );
    assert!(service._parse_id("a1a2a3a4").is_err());
}

#[test]
fn get_locks_for_owner_without_locks_is_empty() {
    let service = LockService::create();
    let query = LockQueryService::create();
    let mut repo = MemoryStore::new();
    assert_eq!(query.get_locks(&repo, "alice".to_string()).unwrap().len(), 0);
    service.create_lock(&mut repo, "bob".to_string(), None, 3, 2).unwrap();
    assert_eq!(query.get_locks(&repo, "alice".to_string()).unwrap().len(), 0);
}

#[test]
fn get_locks_lists_only_the_owners_locks() {
    let service = LockService::create();
    let query = LockQueryService::create();
    let mut repo = MemoryStore::new();
    let a1 = service.create_lock(&mut repo, "alice".to_string(), Some("1".to_string()), 3, 2).unwrap();
    service.create_lock(&mut repo, "bob".to_string(), None, 3, 2).unwrap();
    let a2 = service.create_lock(&mut repo, "alice".to_string(), Some("2".to_string()), 3, 2).unwrap();
    let list = query.get_locks(&repo, "alice".to_string()).unwrap();
    assert_eq!(list.len(), 2);
    assert_eq!(list[0].id, a1.id);
    assert_eq!(list[1].id, a2.id);
}

#[test]
fn plan_with_repeated_metadata_key_is_refused() {
    let service = LockService::create();
    let mut repo = MemoryStore::new();
    let created = service.create_lock(&mut repo, "alice".to_string(), None, 3, 2).unwrap();
    let data = vec![("k".to_string(), "1".to_string()), ("k".to_string(), "2".to_string())];
    let r = service.plan_quest(&mut repo, created.id, "s".to_string(), "GEO".to_string(), data);
    assert!(matches!(r, Err(AppError::ValidationError(_))));
}

#[test]
fn create_with_repeated_metadata_key_is_refused() {
    let service = LockService::create();
    let mut repo = MemoryStore::new();
    let data = vec![("k".to_string(), "1".to_string()), ("k".to_string(), "2".to_string())];
    let r = service.create_lock_with_quests(&mut repo, "alice".to_string(), None, 2, 1, vec![("s".to_string(), "GEO".to_string(), data)]);
    assert!(matches!(r, Err(AppError::ValidationError(_))));
}

#[test]
fn plan_with_given_id_appends_last() {
    let service = LockService::create();
    let mut repo = MemoryStore::new();
    let ids = vec![5u128];
    let quests = vec![("s1".to_string(), "GEO".to_string(), vec![])];
    let created = service
        .create_lock_with_quests_with_ids(&mut repo, 0xa0, &ids, "alice".to_string(), None, 2, 1, &quests)
        .unwrap();
    assert_eq!(created.id, "00000000-0000-0000-0000-0000000000a0");
    let dto = service
        .plan_quest_with_id(&mut repo, created.id.clone(), "s2".to_string(), "TIME".to_string(), data(), 9)
        .unwrap();
    assert_eq!(dto.quests.len(), 2);
    assert_eq!(dto.quests[1].id, "00000000-0000-0000-0000-000000000009");
    assert_eq!(dto.quests[1].quest_type, "TIME");
    assert_eq!(dto.quests[1].status, "PENDING");
}

#[test]
fn plan_with_taken_id_is_an_internal_error() {
    let service = LockService::create();
    let mut repo = MemoryStore::new();
    let quests = vec![("s1".to_string(), "GEO".to_string(), vec![])];
    let created = service
        .create_lock_with_quests_with_ids(&mut repo, 0xa0, &vec![5u128], "alice".to_string(), None, 2, 1, &quests)
        .unwrap();
    let r = service.plan_quest_with_id(&mut repo, created.id.clone(), "s2".to_string(), "TIME".to_string(), vec![], 5);
    assert_eq!(r.err(), Some(AppError::InternalError));
    assert_eq!(repo.get_by_id(0xa0).unwrap().quests.len(), 1);
}

#[test]
fn create_with_given_ids_out_of_order_is_an_internal_error() {
    let service = LockService::create();
    let mut repo = MemoryStore::new();
    let quests = vec![
        ("s1".to_string(), "GEO".to_string(), vec![]),
        ("s2".to_string(), "GEO".to_string(), vec![]),
    ];
    let r = service.create_lock_with_quests_with_ids(&mut repo, 1, &vec![7u128, 6], "alice".to_string(), None, 2, 1, &quests);
    assert_eq!(r.err(), Some(AppError::InternalError));
    assert!(repo.get_by_id(1).is_none());
}

#[test]
fn create_with_one_quest_succeeds() {
    let service = LockService::create();
    let mut repo = MemoryStore::new();
    let quests = vec![("s1".to_string(), "friend".to_string(), data())];
    let dto = service.create_lock_with_quests(&mut repo, "alice".to_string(), Some("l".to_string()), 4, 4, quests).unwrap();
    assert_eq!(dto.quests.len(), 1);
    assert_eq!(dto.quests[0].quest_type, "FRIEND");
    assert_eq!(dto.label, Some("l".to_string()));
}
