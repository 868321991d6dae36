//! Storage rows and the reconstruction of aggregates from them.
use vstd::prelude::*;

use crate::errors::InfrastructureError;
use crate::lock::{quests_keys_unique, all_in_lock, ids_ascending, opt_text, quests_view, Lock, LockView};
use crate::quest::{
    data_view, keys_unique, quest_status_from_text, quest_type_from_text, Quest, QuestStatus, QuestType,
    QuestView,
};

verus! {

/// What `serde_json::from_str` makes of a quest's stored metadata: the entries of
/// a JSON object of strings, in key order, or nothing when the text is no such object.
pub uninterp spec fn decoded_data_of(text: Seq<char>) -> Option<Seq<(Seq<char>, Seq<char>)>>;

/// Relies on serde_json::from_str into a `BTreeMap<String, String>`: the result
/// depends on the text alone, and a map holds each key once.
#[verifier::external_body]
fn decode_data(text: &str) -> (r: Option<Vec<(String, String)>>)
    ensures
        match r {
            Some(d) => decoded_data_of(text@) == Some(data_view(d@)) && keys_unique(data_view(d@)),
            None => decoded_data_of(text@) is None,
        },
{
    serde_json::from_str::<std::collections::BTreeMap<String, String>>(text).ok().map(
        |m| m.into_iter().collect(),
    )
}

/// The JSON object text that serde_json writes for quest metadata.
pub uninterp spec fn encoded_data_of(d: Seq<(Seq<char>, Seq<char>)>) -> Seq<char>;

/// Relies on serde_json's `Map` and the `Display` of `Value`, which writes a
/// JSON object; the text depends on the entries alone. With distinct keys,
/// collecting the entries into the map keeps every one of them.
#[verifier::external_body]
fn encode_data(d: &Vec<(String, String)>) -> (r: String)
    requires
        keys_unique(data_view(d@)),
    ensures
        r@ == encoded_data_of(data_view(d@)),
{
    serde_json::Value::Object(
        d.iter().map(|e| (e.0.clone(), serde_json::Value::String(e.1.clone()))).collect(),
    ).to_string()
}

/// A row of the locks table.
#[derive(Debug)]
pub struct LockModel {
    pub id: u128,
    pub user_id: String,
    pub label: Option<String>,
    pub total_shares: i16,
    pub threshold: i16,
}

/// The value of a lock row.
pub struct LockModelView {
    pub id: u128,
    pub user_id: Seq<char>,
    pub label: Option<Seq<char>>,
    pub total_shares: i16,
    pub threshold: i16,
}

impl View for LockModel {
    type V = LockModelView;

    open spec fn view(&self) -> LockModelView {
        LockModelView {
            id: self.id,
            user_id: self.user_id@,
            label: opt_text(self.label),
            total_shares: self.total_shares,
            threshold: self.threshold,
        }
    }
}

/// A row of the quests table; type, status and metadata are stored as text.
#[derive(Debug)]
pub struct QuestModel {
    pub id: u128,
    pub lock_id: u128,
    pub share: String,
    pub quest_type: String,
    pub status: String,
    pub data: String,
}

/// The value of a quest row.
pub struct QuestModelView {
    pub id: u128,
    pub lock_id: u128,
    pub share: Seq<char>,
    pub quest_type: Seq<char>,
    pub status: Seq<char>,
    pub data: Seq<char>,
}

impl View for QuestModel {
    type V = QuestModelView;

    open spec fn view(&self) -> QuestModelView {
        QuestModelView {
            id: self.id,
            lock_id: self.lock_id,
            share: self.share@,
            quest_type: self.quest_type@,
            status: self.status@,
            data: self.data@,
        }
    }
}

/// A lock row with the quest rows read for it.
#[derive(Debug)]
pub struct LockWithQuests {
    pub lock: LockModel,
    pub quests: Vec<QuestModel>,
}

/// The value of a lock row with its quest rows.
pub struct LockWithQuestsView {
    pub lock: LockModelView,
    pub quests: Seq<QuestModelView>,
}

/// The values of a sequence of quest rows.
pub open spec fn quest_models_view(qs: Seq<QuestModel>) -> Seq<QuestModelView> {
    qs.map_values(|q: QuestModel| q@)
}

impl View for LockWithQuests {
    type V = LockWithQuestsView;

    open spec fn view(&self) -> LockWithQuestsView {
        LockWithQuestsView { lock: self.lock@, quests: quest_models_view(self.quests@) }
    }
}

/// A quest row decoded against the closed sets, or nothing when any column is malformed.
pub open spec fn decode_quest(m: QuestModelView) -> Option<QuestView> {
    match (quest_type_from_text(m.quest_type), quest_status_from_text(m.status), decoded_data_of(m.data)) {
        (Some(t), Some(s), Some(d)) => Some(
            QuestView {
                id: m.id,
                lock_id: m.lock_id,
                share: m.share,
                quest_type: t,
                status: s,
                data: d,
            },
        ),
        _ => None,
    }
}

/// All quest rows decoded in order, or nothing when any one of them is malformed.
pub open spec fn decode_quests(ms: Seq<QuestModelView>) -> Option<Seq<QuestView>>
    decreases ms.len(),
{
    if ms.len() == 0 {
        Some(Seq::empty())
    } else {
        match (decode_quests(ms.drop_last()), decode_quest(ms.last())) {
            (Some(a), Some(q)) => Some(a.push(q)),
            _ => None,
        }
    }
}

/// The aggregate rebuilt from a lock row and its quest rows; fails as a whole
/// when one quest row is malformed, points at another lock, or is out of
/// ascending identifier order.
pub open spec fn lock_from_rows(l: LockModelView, qs: Seq<QuestModelView>) -> Option<LockView> {
    match decode_quests(qs) {
        Some(d) => if ids_ascending(d) && all_in_lock(d, l.id) {
            Some(
                LockView {
                    id: l.id,
                    user_id: l.user_id,
                    label: l.label,
                    total_shares: l.total_shares as u8,
                    threshold: l.threshold as u8,
                    quests: d,
                },
            )
        } else {
            None
        },
        None => None,
    }
}

/// The row that a lock is stored as.
pub open spec fn model_of(l: LockView) -> LockModelView {
    LockModelView {
        id: l.id,
        user_id: l.user_id,
        label: l.label,
        total_shares: l.total_shares as i16,
        threshold: l.threshold as i16,
    }
}

/// The row of a lock read in place.
pub fn lock_row(lock: &Lock) -> (r: LockModel)
    ensures
        r@ == model_of(lock@),
{
    LockModel {
        id: lock.id,
        user_id: lock.user_id.clone(),
        label: crate::lock::clone_opt_text(&lock.label),
        total_shares: lock.total_shares as i16,
        threshold: lock.threshold as i16,
    }
}

impl LockModel {
    /// The row that a lock is stored as.
    pub fn from(lock: Lock) -> (r: LockModel)
        ensures
            r@ == model_of(lock@),
    {
        lock_row(&lock)
    }

    pub fn create(
        id: u128,
        user_id: String,
        label: Option<String>,
        total_shares: i16,
        threshold: i16,
    ) -> (r: LockModel)
        ensures
            r == (LockModel { id, user_id, label, total_shares, threshold }),
    {
        LockModel { id, user_id, label, total_shares, threshold }
    }
}

impl QuestModel {
    /// The row that a quest is stored as: type and status by name, metadata
    /// as a JSON object.
    pub fn from(quest: Quest) -> (r: QuestModel)
        requires
            keys_unique(quest@.data),
        ensures
            r@ == (QuestModelView {
                id: quest.id,
                lock_id: quest.lock_id,
                share: quest.share@,
                quest_type: crate::quest::quest_type_text(quest.quest_type),
                status: crate::quest::quest_status_text(quest.status),
                data: encoded_data_of(quest@.data),
            }),
    {
        let data = encode_data(&quest.data);
        QuestModel {
            id: quest.id,
            lock_id: quest.lock_id,
            share: quest.share,
            quest_type: quest.quest_type.to_string(),
            status: quest.status.to_string(),
            data,
        }
    }

    pub fn create(
        id: u128,
        lock_id: u128,
        share: String,
        quest_type: String,
        status: String,
        data: String,
    ) -> (r: QuestModel)
        ensures
            r == (QuestModel { id, lock_id, share, quest_type, status, data }),
    {
        QuestModel { id, lock_id, share, quest_type, status, data }
    }
}

/// A conversion failure with the given explanation.
fn conversion_error(what: &str, value: &str) -> (r: InfrastructureError) {
    let msg = String::from_str("Failed to parse ").concat(what).concat(" '").concat(value).concat(
        "'",
    );
    InfrastructureError::DatabaseRowToDomainConversionError(msg)
}

/// Decodes a quest row read in place.
fn decode_model(row: &QuestModel) -> (r: Result<Quest, InfrastructureError>)
    ensures
        match r {
            Ok(q) => decode_quest(row@) == Some(q@) && keys_unique(q@.data),
            Err(_) => decode_quest(row@) is None,
        },
{
    let quest_type = match QuestType::from_str(row.quest_type.as_str()) {
        Some(t) => t,
        None => {
            return Err(conversion_error("quest_type", row.quest_type.as_str()));
        },
    };
    let status = match QuestStatus::from_str(row.status.as_str()) {
        Some(s) => s,
        None => {
            return Err(conversion_error("status", row.status.as_str()));
        },
    };
    let data = match decode_data(row.data.as_str()) {
        Some(d) => d,
        None => {
            return Err(conversion_error("data", row.data.as_str()));
        },
    };
    Ok(
        Quest {
            id: row.id,
            lock_id: row.lock_id,
            share: row.share.clone(),
            quest_type,
            status,
            data,
        },
    )
}

impl Quest {
    /// Decodes a quest row, failing on an unknown type or status text or on
    /// metadata that is not a JSON object of strings.
    pub fn from_model(row: QuestModel) -> (r: Result<Quest, InfrastructureError>)
        ensures
            match r {
                Ok(q) => decode_quest(row@) == Some(q@) && keys_unique(q@.data),
                Err(_) => decode_quest(row@) is None,
            },
    {
        decode_model(&row)
    }
}

/// Decodes quest rows in order, stopping at the first malformed one.
fn decode_models(models: &Vec<QuestModel>) -> (r: Result<Vec<Quest>, InfrastructureError>)
    ensures
        match r {
            Ok(qs) => decode_quests(quest_models_view(models@)) == Some(quests_view(qs@))
                && quests_keys_unique(quests_view(qs@)),
            Err(_) => decode_quests(quest_models_view(models@)) is None,
        },
{
    let ghost ms = quest_models_view(models@);
    let mut quests: Vec<Quest> = Vec::new();
    let mut i: usize = 0;
    while i < models.len()
        invariant
            i <= models.len(),
            ms == quest_models_view(models@),
            decode_quests(ms.subrange(0, i as int)) == Some(quests_view(quests@)),
            forall|k: int| 0 <= k < quests@.len() ==> crate::quest::keys_unique(#[trigger] quests@[k]@.data),
        decreases models.len() - i,
    {
        let ghost prefix = ms.subrange(0, i as int + 1);
        assert(prefix.drop_last() =~= ms.subrange(0, i as int));
        assert(prefix.last() == models@[i as int]@);
        match decode_model(&models[i]) {
            Ok(q) => {
                quests.push(q);
                assert(quests_view(quests@) =~= decode_quests(prefix).unwrap());
            },
            Err(e) => {
                proof {
                    lemma_decode_fails_extends(ms, i as int + 1);
                }
                return Err(e);
            },
        }
        i = i + 1;
    }
    assert(ms.subrange(0, models.len() as int) =~= ms);
    assert(quests_keys_unique(quests_view(quests@))) by {
        assert forall|k: int| 0 <= k < quests_view(quests@).len() implies crate::quest::keys_unique(#[trigger] quests_view(quests@)[k].data) by {
            assert(quests_view(quests@)[k] == quests@[k]@);
        }
    }
    Ok(quests)
}

/// Once a prefix of the rows fails to decode, every longer prefix fails too.
proof fn lemma_decode_fails_extends(ms: Seq<QuestModelView>, n: int)
    requires
        0 <= n <= ms.len(),
        decode_quests(ms.subrange(0, n)) is None,
    ensures
        decode_quests(ms) is None,
    decreases ms.len() - n,
{
    if n < ms.len() {
        assert(ms.subrange(0, n + 1).drop_last() =~= ms.subrange(0, n));
        lemma_decode_fails_extends(ms, n + 1);
    } else {
        assert(ms.subrange(0, n) =~= ms);
    }
}

/// Whether decoded quests all point at the lock, in ascending identifier order.
fn quests_in_order(quests: &Vec<Quest>, lock_id: u128) -> (r: bool)
    ensures
        r == (ids_ascending(quests_view(quests@)) && all_in_lock(quests_view(quests@), lock_id)),
{
    let ghost qs = quests_view(quests@);
    let mut i: usize = 0;
    while i < quests.len()
        invariant
            i <= quests.len(),
            qs == quests_view(quests@),
            forall|a: int, b: int| 0 <= a < b < i ==> #[trigger] qs[a].id < #[trigger] qs[b].id,
            forall|a: int| 0 <= a < i ==> #[trigger] qs[a].lock_id == lock_id,
        decreases quests.len() - i,
    {
        if quests[i].lock_id != lock_id {
            assert(qs[i as int].lock_id != lock_id);
            return false;
        }
        if i > 0 && quests[i - 1].id >= quests[i].id {
            assert(!(qs[i - 1].id < qs[i as int].id));
            return false;
        }
        proof {
            assert forall|a: int, b: int| 0 <= a < b < i + 1 implies #[trigger] qs[a].id < #[trigger] qs[b].id by {
                if b == i && a < i - 1 {
                    assert(qs[a].id < qs[i - 1].id);
                }
            }
        }
        i = i + 1;
    }
    true
}

impl LockWithQuests {
    /// Rebuilds the aggregate that these rows describe, leaving the rows in place.
    pub fn to_lock(&self) -> (r: Result<Lock, InfrastructureError>)
        ensures
            match r {
                Ok(l) => lock_from_rows(self.lock@, quest_models_view(self.quests@)) == Some(l@) && l@.wf()
                    && quests_keys_unique(l@.quests),
                Err(_) => lock_from_rows(self.lock@, quest_models_view(self.quests@)) is None,
            },
    {
        let quests = decode_models(&self.quests)?;
        if !quests_in_order(&quests, self.lock.id) {
            return Err(
                InfrastructureError::DatabaseRowToDomainConversionError(
                    String::from_str("quest rows do not belong to the lock in ascending order"),
                ),
            );
        }
        Ok(
            Lock {
                id: self.lock.id,
                user_id: self.lock.user_id.clone(),
                label: crate::lock::clone_opt_text(&self.lock.label),
                total_shares: self.lock.total_shares as u8,
                threshold: self.lock.threshold as u8,
                quests,
            },
        )
    }
}

impl Lock {
    /// Rebuilds the aggregate from a lock row and its quest rows, in the order
    /// given; one malformed quest row fails the whole call.
    pub fn from_rows(rows: LockWithQuests) -> (r: Result<Lock, InfrastructureError>)
        ensures
            match r {
                Ok(l) => lock_from_rows(rows.lock@, quest_models_view(rows.quests@)) == Some(l@) && l@.wf()
                    && quests_keys_unique(l@.quests),
                Err(_) => lock_from_rows(rows.lock@, quest_models_view(rows.quests@)) is None,
            },
    {
        rows.to_lock()
    }
}

} // verus!
