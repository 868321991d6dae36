//! The external projection of an aggregate: what clients see of a lock.
use vstd::prelude::*;

use crate::ids::{id_text_of, id_to_string};
use crate::lock::{clone_opt_text, opt_text, Lock, LockView};
use crate::quest::{clone_data, data_view, quest_status_text, quest_type_text, Quest, QuestView};

verus! {

/// The projection of a quest.
#[derive(Debug)]
pub struct QuestDTO {
    pub id: String,
    pub lock_id: String,
    pub share: Option<String>,
    pub quest_type: String,
    pub status: String,
    pub data: Vec<(String, String)>,
}

/// The projection of a lock; the owner is not part of it.
#[derive(Debug)]
pub struct LockDTO {
    pub id: String,
    pub label: Option<String>,
    pub total_shares: u8,
    pub threshold: u8,
    pub quests: Vec<QuestDTO>,
}

/// The value of a quest projection.
pub struct QuestDTOView {
    pub id: Seq<char>,
    pub lock_id: Seq<char>,
    pub share: Option<Seq<char>>,
    pub quest_type: Seq<char>,
    pub status: Seq<char>,
    pub data: Seq<(Seq<char>, Seq<char>)>,
}

/// The value of a lock projection.
pub struct LockDTOView {
    pub id: Seq<char>,
    pub label: Option<Seq<char>>,
    pub total_shares: u8,
    pub threshold: u8,
    pub quests: Seq<QuestDTOView>,
}

impl View for QuestDTO {
    type V = QuestDTOView;

    open spec fn view(&self) -> QuestDTOView {
        QuestDTOView {
            id: self.id@,
            lock_id: self.lock_id@,
            share: opt_text(self.share),
            quest_type: self.quest_type@,
            status: self.status@,
            data: data_view(self.data@),
        }
    }
}

/// The values of a sequence of quest projections.
pub open spec fn quest_dtos_view(qs: Seq<QuestDTO>) -> Seq<QuestDTOView> {
    qs.map_values(|q: QuestDTO| q@)
}

impl View for LockDTO {
    type V = LockDTOView;

    open spec fn view(&self) -> LockDTOView {
        LockDTOView {
            id: self.id@,
            label: opt_text(self.label),
            total_shares: self.total_shares,
            threshold: self.threshold,
            quests: quest_dtos_view(self.quests@),
        }
    }
}

/// How a quest is shown: identifiers in hyphenated form, type and status by name.
pub open spec fn quest_dto_of(q: QuestView) -> QuestDTOView {
    QuestDTOView {
        id: id_text_of(q.id),
        lock_id: id_text_of(q.lock_id),
        share: Some(q.share),
        quest_type: quest_type_text(q.quest_type),
        status: quest_status_text(q.status),
        data: q.data,
    }
}

/// How a lock is shown.
pub open spec fn lock_dto_of(l: LockView) -> LockDTOView {
    LockDTOView {
        id: id_text_of(l.id),
        label: l.label,
        total_shares: l.total_shares,
        threshold: l.threshold,
        quests: l.quests.map_values(|q: QuestView| quest_dto_of(q)),
    }
}

/// The values of a sequence of lock projections.
pub open spec fn lock_dtos_view(ls: Seq<LockDTO>) -> Seq<LockDTOView> {
    ls.map_values(|l: LockDTO| l@)
}

/// Projects a quest read in place.
pub fn project_quest(quest: &Quest) -> (r: QuestDTO)
    ensures
        r@ == quest_dto_of(quest@),
{
    QuestDTO {
            id: id_to_string(quest.id),
            lock_id: id_to_string(quest.lock_id),
            share: Some(quest.share.clone()),
            quest_type: quest.quest_type.to_string(),
            status: quest.status.to_string(),
        data: clone_data(&quest.data),
    }
}

impl QuestDTO {
    /// Projects a quest.
    pub fn from(quest: Quest) -> (r: QuestDTO)
        ensures
            r@ == quest_dto_of(quest@),
    {
        project_quest(&quest)
    }
}

/// Projects a lock read in place, with its quests in order.
pub fn project_lock(lock: &Lock) -> (r: LockDTO)
    ensures
        r@ == lock_dto_of(lock@),
{
    let ghost lv = lock@;
    let mut quests: Vec<QuestDTO> = Vec::new();
    let mut i: usize = 0;
    while i < lock.quests.len()
        invariant
            i <= lock.quests.len(),
            lv == lock@,
            quests@.len() == i,
            forall|k: int| 0 <= k < i ==> #[trigger] quests@[k]@ == quest_dto_of(lock.quests@[k]@),
        decreases lock.quests.len() - i,
    {
        quests.push(project_quest(&lock.quests[i]));
        i = i + 1;
    }
    let r = LockDTO {
        id: id_to_string(lock.id),
        label: clone_opt_text(&lock.label),
        total_shares: lock.total_shares,
        threshold: lock.threshold,
        quests,
    };
    assert(r@.quests =~= lock_dto_of(lv).quests);
    r
}

impl LockDTO {
    /// Projects a lock with its quests, in order.
    pub fn from(lock: Lock) -> (r: LockDTO)
        ensures
            r@ == lock_dto_of(lock@),
    {
        project_lock(&lock)
    }
}

/// Projects a sequence of locks, in order.
pub fn lock_dtos(locks: &Vec<Lock>) -> (r: Vec<LockDTO>)
    ensures
        lock_dtos_view(r@) == crate::join::locks_view(locks@).map_values(|l: LockView| lock_dto_of(l)),
{
    let mut out: Vec<LockDTO> = Vec::new();
    let mut i: usize = 0;
    while i < locks.len()
        invariant
            i <= locks.len(),
            out@.len() == i,
            forall|k: int| 0 <= k < i ==> #[trigger] out@[k]@ == lock_dto_of(locks@[k]@),
        decreases locks.len() - i,
    {
        out.push(project_lock(&locks[i]));
        i = i + 1;
    }
    assert(lock_dtos_view(out@) =~= crate::join::locks_view(locks@).map_values(|l: LockView| lock_dto_of(l)));
    out
}

} // verus!
