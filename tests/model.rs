use quest_lock::errors::{AppError, InfrastructureError};
use quest_lock::lock::Lock;
use quest_lock::models::{LockModel, LockWithQuests, QuestModel};
use quest_lock::quest::{keys_distinct, Quest, QuestStatus, QuestType};
use quest_lock::share::deserialize_quest_share;
use quest_lock::requests::{quest_data_from_request, CreateQuestRequest};
use quest_lock::dtos::LockDTO;

fn quest_row(id: u128, lock_id: u128, quest_type: &str, status: &str, data: &str) -> QuestModel {
    QuestModel::create(
        id,
        lock_id,
        "share".to_string(),
        quest_type.to_string(),
        status.to_string(),
        data.to_string(),
    )
}

#[test]
fn quest_type_parses_both_cases_only() {
    assert_eq!(QuestType::from_str("GEO"), Some(QuestType::GEO));
    assert_eq!(QuestType::from_str("geo"), Some(QuestType::GEO));
    assert_eq!(QuestType::from_str("time"), Some(QuestType::TIME));
    assert_eq!(QuestType::from_str("FRIEND"), Some(QuestType::FRIEND));
    assert_eq!(QuestType::from_str("paywall"), Some(QuestType::PAYWALL));
    assert_eq!(QuestType::from_str("Geo"), None);
    assert_eq!(QuestType::from_str(""), None);
    assert_eq!(QuestType::from_str("GEOX"), None);
}

#[test]
fn quest_status_parses_both_cases_only() {
    assert_eq!(QuestStatus::from_str("PENDING"), Some(QuestStatus::PENDING));
    assert_eq!(QuestStatus::from_str("completed"), Some(QuestStatus::COMPLETED));
    assert_eq!(QuestStatus::from_str("Completed"), None);
    assert_eq!(QuestStatus::from_str("done"), None);
}

#[test]
fn enum_names_are_upper_case() {
    assert_eq!(QuestType::PAYWALL.to_string(), "PAYWALL");
    assert_eq!(QuestType::GEO.to_string(), "GEO");
    assert_eq!(QuestStatus::PENDING.to_string(), "PENDING");
    assert_eq!(QuestStatus::COMPLETED.to_string(), "COMPLETED");
}

#[test]
fn quest_create_defaults_to_pending() {
    let q = Quest::create(7, "s".to_string(), QuestType::TIME, None, vec![]);
    assert_eq!(q.lock_id, 7);
    assert_eq!(q.status, QuestStatus::PENDING);
    let q2 = Quest::create(7, "s".to_string(), QuestType::TIME, Some(QuestStatus::COMPLETED), vec![]);
    assert_eq!(q2.status, QuestStatus::COMPLETED);
    assert_ne!(q.id, q2.id);
}

#[test]
fn quest_row_decodes_metadata_in_key_order() {
    let row = quest_row(1, 2, "geo", "PENDING", "{\"b\":\"2\",\"a\":\"1\"}");
    let q = Quest::from_model(row).unwrap();
    assert_eq!(q.id, 1);
    assert_eq!(q.lock_id, 2);
    assert_eq!(q.quest_type, QuestType::GEO);
    assert_eq!(q.status, QuestStatus::PENDING);
    assert_eq!(
        q.data,
        vec![("a".to_string(), "1".to_string()), ("b".to_string(), "2".to_string())]
    );
}

#[test]
fn quest_row_with_unknown_type_fails() {
    let r = Quest::from_model(quest_row(1, 2, "riddle", "PENDING", "{}"));
    assert!(matches!(r, Err(InfrastructureError::DatabaseRowToDomainConversionError(_))));
}

#[test]
fn quest_row_with_unknown_status_fails() {
    let r = Quest::from_model(quest_row(1, 2, "GEO", "open", "{}"));
    assert!(r.is_err());
}

#[test]
fn quest_row_with_malformed_metadata_fails() {
    assert!(Quest::from_model(quest_row(1, 2, "GEO", "PENDING", "[1,2]")).is_err());
    assert!(Quest::from_model(quest_row(1, 2, "GEO", "PENDING", "{\"a\":3}")).is_err());
    assert!(Quest::from_model(quest_row(1, 2, "GEO", "PENDING", "not json")).is_err());
}

#[test]
fn one_malformed_quest_row_fails_the_whole_lock() {
    let rows = LockWithQuests {
        lock: LockModel::create(9, "owner".to_string(), None, 3, 2),
        quests: vec![
            quest_row(1, 9, "GEO", "PENDING", "{}"),
            quest_row(2, 9, "BOGUS", "PENDING", "{}"),
        ],
    };
    assert!(Lock::from_rows(rows).is_err());
}

#[test]
fn lock_rows_rebuild_in_order() {
    let rows = LockWithQuests {
        lock: LockModel::create(9, "owner".to_string(), Some("l".to_string()), 3, 2),
        quests: vec![
            quest_row(1, 9, "GEO", "PENDING", "{}"),
            quest_row(2, 9, "time", "completed", "{\"k\":\"v\"}"),
        ],
    };
    let lock = Lock::from_rows(rows).unwrap();
    assert_eq!(lock.id, 9);
    assert_eq!(lock.user_id, "owner");
    assert_eq!(lock.label, Some("l".to_string()));
    assert_eq!(lock.total_shares, 3);
    assert_eq!(lock.threshold, 2);
    assert_eq!(lock.quests.len(), 2);
    assert_eq!(lock.quests[0].id, 1);
    assert_eq!(lock.quests[1].quest_type, QuestType::TIME);
    assert_eq!(lock.quests[1].status, QuestStatus::COMPLETED);
}

#[test]
fn projection_prints_hyphenated_ids_and_names() {
    let lock = Lock {
        id: 0xa1a2a3a4b1b2c1c2d1d2d3d4d5d6d7d8,
        user_id: "owner".to_string(),
        label: None,
        total_shares: 5,
        threshold: 3,
        quests: vec![Quest {
            id: 1,
            lock_id: 0xa1a2a3a4b1b2c1c2d1d2d3d4d5d6d7d8,
            share: "s".to_string(),
            quest_type: QuestType::FRIEND,
            status: QuestStatus::PENDING,
            data: vec![("k".to_string(), "v".to_string())],
        }],
    };
    let dto = LockDTO::from(lock);
    assert_eq!(dto.id, "a1a2a3a4-b1b2-c1c2-d1d2-d3d4d5d6d7d8");
    assert_eq!(dto.total_shares, 5);
    assert_eq!(dto.threshold, 3);
    assert_eq!(dto.quests.len(), 1);
    assert_eq!(dto.quests[0].id, "00000000-0000-0000-0000-000000000001");
    assert_eq!(dto.quests[0].lock_id, "a1a2a3a4-b1b2-c1c2-d1d2-d3d4d5d6d7d8");
    assert_eq!(dto.quests[0].share, Some("s".to_string()));
    assert_eq!(dto.quests[0].quest_type, "FRIEND");
    assert_eq!(dto.quests[0].status, "PENDING");
}

#[test]
fn share_decodes_from_base64() {
    assert_eq!(deserialize_quest_share("aGVsbG8=".to_string()), Ok("hello".to_string()));
    assert_eq!(deserialize_quest_share("".to_string()), Ok("".to_string()));
}

#[test]
fn share_that_is_not_base64_is_refused() {
    assert_eq!(deserialize_quest_share("not base64!".to_string()), Err(AppError::InvalidQuestShare));
}

#[test]
fn share_that_is_not_utf8_is_refused() {
    assert_eq!(deserialize_quest_share("/w==".to_string()), Err(AppError::InvalidQuestShare));
}

#[test]
fn request_quests_decode_in_order() {
    let quests = vec![
        CreateQuestRequest { share: "aGVsbG8=".to_string(), quest_type: "GEO".to_string(), data: vec![] },
        CreateQuestRequest {
            share: "d29ybGQ=".to_string(),
            quest_type: "time".to_string(),
            data: vec![("a".to_string(), "b".to_string())],
        },
    ];
    let out = quest_data_from_request(&quests).unwrap();
    assert_eq!(out.len(), 2);
    assert_eq!(out[0].0, "hello");
    assert_eq!(out[1].0, "world");
    assert_eq!(out[1].1, "time");
    assert_eq!(out[1].2, vec![("a".to_string(), "b".to_string())]);
}

#[test]
fn request_with_bad_share_is_refused() {
    let quests = vec![
        CreateQuestRequest { share: "aGVsbG8=".to_string(), quest_type: "GEO".to_string(), data: vec![] },
        CreateQuestRequest { share: "%%%".to_string(), quest_type: "GEO".to_string(), data: vec![] },
    ];
    assert_eq!(quest_data_from_request(&quests).err(), Some(AppError::InvalidQuestShare));
}

#[test]
fn error_status_codes() {
    assert_eq!(AppError::ValidationError("x".to_string()).status_code(), 400);
    assert_eq!(AppError::DatabaseError("x".to_string()).status_code(), 500);
    assert_eq!(AppError::NotFound("x".to_string()).status_code(), 404);
    assert_eq!(AppError::InternalError.status_code(), 500);
    assert_eq!(AppError::WrongCredentials.status_code(), 401);
    assert_eq!(AppError::MissingCredentials.status_code(), 400);
    assert_eq!(AppError::InvalidToken.status_code(), 401);
    assert_eq!(AppError::TokenCreation.status_code(), 500);
    assert_eq!(AppError::UserNotFound.status_code(), 404);
    assert_eq!(AppError::Unauthorised("x".to_string()).status_code(), 401);
    assert_eq!(AppError::InvalidQuestShare.status_code(), 400);
}

#[test]
fn quest_row_of_another_lock_fails_the_rebuild() {
    let rows = LockWithQuests {
        lock: LockModel::create(9, "owner".to_string(), None, 3, 2),
        quests: vec![quest_row(1, 9, "GEO", "PENDING", "{}"), quest_row(2, 8, "GEO", "PENDING", "{}")],
    };
    assert!(Lock::from_rows(rows).is_err());
}

#[test]
fn quest_rows_out_of_order_fail_the_rebuild() {
    let rows = LockWithQuests {
        lock: LockModel::create(9, "owner".to_string(), None, 3, 2),
        quests: vec![quest_row(2, 9, "GEO", "PENDING", "{}"), quest_row(1, 9, "GEO", "PENDING", "{}")],
    };
    assert!(Lock::from_rows(rows).is_err());
}

#[test]
fn lock_row_of_a_lock_keeps_its_columns() {
    let lock = Lock {
        id: 3,
        user_id: "owner".to_string(),
        label: Some("x".to_string()),
        total_shares: 200,
        threshold: 1,
        quests: vec![],
    };
    let row = LockModel::from(lock);
    assert_eq!(row.id, 3);
    assert_eq!(row.user_id, "owner");
    assert_eq!(row.label, Some("x".to_string()));
    assert_eq!(row.total_shares, 200);
    assert_eq!(row.threshold, 1);
}

#[test]
fn quest_row_of_a_quest_names_type_and_encodes_metadata() {
    let q = Quest {
        id: 4,
        lock_id: 9,
        share: "s".to_string(),
        quest_type: QuestType::PAYWALL,
        status: QuestStatus::COMPLETED,
        data: vec![("b".to_string(), "2".to_string()), ("a".to_string(), "1".to_string())],
    };
    let row = QuestModel::from(q);
    assert_eq!(row.id, 4);
    assert_eq!(row.lock_id, 9);
    assert_eq!(row.quest_type, "PAYWALL");
    assert_eq!(row.status, "COMPLETED");
    let back = Quest::from_model(row).unwrap();
    assert_eq!(
        back.data,
        vec![("a".to_string(), "1".to_string()), ("b".to_string(), "2".to_string())]
    );
}

#[test]
fn metadata_key_check() {
    assert!(keys_distinct(&vec![("a".to_string(), "1".to_string()), ("b".to_string(), "1".to_string())]));
    assert!(!keys_distinct(&vec![("a".to_string(), "1".to_string()), ("a".to_string(), "2".to_string())]));
    assert!(keys_distinct(&vec![]));
}
