//! The command and query services: they build and check aggregates and hand
//! them to the store.
use vstd::prelude::*;

use crate::dtos::{lock_dto_of, lock_dtos, lock_dtos_view, LockDTO};
use crate::errors::AppError;
use crate::ids::{new_id, parse_id, parsed_id_of};
use crate::lock::{opt_text, Lock, LockView};
use crate::quest::{clone_data, data_view, keys_distinct, keys_unique, quest_type_from_text, Quest, QuestStatus, QuestType, QuestView};
use crate::store::{append_spec, load_spec, quest_pos, owner_locks, save_spec, MemoryStore, StoreError};
use crate::text::str_equals;

verus! {

/// The failure is a validation error.
pub open spec fn is_validation_error<T>(r: Result<T, AppError>) -> bool {
    match r {
        Err(AppError::ValidationError(_)) => true,
        _ => false,
    }
}

/// The failure is a not-found error.
pub open spec fn is_not_found<T>(r: Result<T, AppError>) -> bool {
    match r {
        Err(AppError::NotFound(_)) => true,
        _ => false,
    }
}

/// The failure is an authorisation error.
pub open spec fn is_unauthorised<T>(r: Result<T, AppError>) -> bool {
    match r {
        Err(AppError::Unauthorised(_)) => true,
        _ => false,
    }
}

/// A plan names a known quest type and carries metadata without repeated keys.
pub open spec fn plan_inputs_valid(quest_type: Seq<char>, data: Seq<(String, String)>) -> bool {
    quest_type_from_text(quest_type) is Some && keys_unique(data_view(data))
}

/// A new quest: pending, with the given fields.
pub open spec fn planned_quest(
    id: u128,
    lock_id: u128,
    share: Seq<char>,
    quest_type: QuestType,
    data: Seq<(Seq<char>, Seq<char>)>,
) -> QuestView {
    QuestView { id, lock_id, share, quest_type, status: QuestStatus::PENDING, data }
}

/// Every quest of a creation request names a known quest type.
pub open spec fn all_types_known(qd: Seq<(String, String, Vec<(String, String)>)>) -> bool {
    forall|i: int| 0 <= i < qd.len() ==> #[trigger] quest_type_from_text(qd[i].1@) is Some
}

/// Every quest of a creation request names a known quest type and carries
/// metadata without repeated keys.
pub open spec fn quests_valid(qd: Seq<(String, String, Vec<(String, String)>)>) -> bool {
    &&& all_types_known(qd)
    &&& forall|i: int| 0 <= i < qd.len() ==> #[trigger] keys_unique(data_view(qd[i].2@))
}

/// Identifiers strictly increase along the sequence.
pub open spec fn strictly_ascending(ids: Seq<u128>) -> bool {
    forall|i: int, j: int| 0 <= i < j < ids.len() ==> #[trigger] ids[i] < #[trigger] ids[j]
}

/// The aggregate that a creation request describes, given its identifiers.
pub open spec fn new_aggregate_spec(
    lock_id: u128,
    quest_ids: Seq<u128>,
    user_id: Seq<char>,
    label: Option<Seq<char>>,
    total_shares: u8,
    threshold: u8,
    qd: Seq<(String, String, Vec<(String, String)>)>,
) -> LockView {
    LockView {
        id: lock_id,
        user_id,
        label,
        total_shares,
        threshold,
        quests: Seq::new(
            qd.len(),
            |i: int|
                planned_quest(
                    quest_ids[i],
                    lock_id,
                    qd[i].0@,
                    quest_type_from_text(qd[i].1@).unwrap(),
                    data_view(qd[i].2@),
                ),
        ),
    }
}

/// The command side: creating locks and planning quests.
pub struct LockService;

/// The query side: reading locks on behalf of their owner.
pub struct LockQueryService;

impl LockService {
    pub fn create() -> (r: LockService) {
        LockService
    }

    /// Parses a lock identifier; malformed text is a validation error that
    /// carries it.
    pub fn _parse_id(&self, lock_id: &str) -> (r: Result<u128, AppError>)
        ensures
            match parsed_id_of(lock_id@) {
                Some(id) => r == Ok::<u128, AppError>(id),
                None => is_validation_error(r) && r->Err_0->ValidationError_0@ == lock_id@,
            },
    {
        match parse_id(lock_id) {
            Some(id) => Ok(id),
            None => Err(AppError::ValidationError(String::from_str(lock_id))),
        }
    }

    /// Parses a quest type against the closed set; anything else is a
    /// validation error.
    pub fn _parse_quest_type(&self, quest_type: &str) -> (r: Result<QuestType, AppError>)
        ensures
            match quest_type_from_text(quest_type@) {
                Some(t) => r == Ok::<QuestType, AppError>(t),
                None => is_validation_error(r),
            },
    {
        match QuestType::from_str(quest_type) {
            Some(t) => Ok(t),
            None => Err(AppError::ValidationError(String::from_str("Matching variant not found"))),
        }
    }

    /// Loads the aggregate named by a textual identifier.
    pub fn _get_lock(&self, repo: &MemoryStore, lock_id: &str) -> (r: Result<Option<Lock>, AppError>)
        ensures
            match parsed_id_of(lock_id@) {
                None => is_validation_error(r),
                Some(id) => r is Ok && match r.unwrap() {
                    Some(l) => load_spec(repo@, id) == Some(l@),
                    None => load_spec(repo@, id) is None,
                },
            },
    {
        let id = self._parse_id(lock_id)?;
        Ok(repo.get_by_id(id))
    }

    /// Builds a whole aggregate in memory from a creation request and the
    /// identifiers chosen for it. Refused with a validation error when the
    /// threshold exceeds the total shares or a quest type is unknown; with an
    /// internal error when the quest identifiers are not in ascending order.
    pub fn new_aggregate(
        &self,
        lock_id: u128,
        quest_ids: &Vec<u128>,
        user_id: String,
        label: Option<String>,
        total_shares: u8,
        threshold: u8,
        quest_data: &Vec<(String, String, Vec<(String, String)>)>,
    ) -> (r: Result<Lock, AppError>)
        requires
            quest_ids.len() == quest_data.len(),
        ensures
            threshold > total_shares ==> is_validation_error(r),
            threshold <= total_shares && !quests_valid(quest_data@) ==> is_validation_error(r),
            threshold <= total_shares && quests_valid(quest_data@) && !strictly_ascending(quest_ids@)
                ==> r == Err::<Lock, AppError>(AppError::InternalError),
            threshold <= total_shares && quests_valid(quest_data@) && strictly_ascending(quest_ids@) ==> {
                &&& r is Ok
                &&& r.unwrap()@ == new_aggregate_spec(
                    lock_id,
                    quest_ids@,
                    user_id@,
                    opt_text(label),
                    total_shares,
                    threshold,
                    quest_data@,
                )
                &&& r.unwrap()@.wf()
            },
    {
        if threshold > total_shares {
            return Err(AppError::ValidationError(String::from_str("threshold exceeds total_shares")));
        }
        let n = quest_data.len();
        let mut types: Vec<QuestType> = Vec::new();
        let mut i: usize = 0;
        while i < n
            invariant
                n == quest_data.len(),
                i <= n,
                types@.len() == i,
                forall|k: int| 0 <= k < i ==> quest_type_from_text(quest_data@[k].1@) == Some(#[trigger] types@[k]),
                forall|k: int| 0 <= k < i ==> #[trigger] keys_unique(data_view(quest_data@[k].2@)),
            decreases n - i,
        {
            match self._parse_quest_type(quest_data[i].1.as_str()) {
                Ok(t) => types.push(t),
                Err(e) => {
                    return Err(e);
                },
            }
            if !keys_distinct(&quest_data[i].2) {
                return Err(AppError::ValidationError(String::from_str("repeated metadata key")));
            }
            i = i + 1;
        }
        assert(quests_valid(quest_data@)) by {
            assert forall|k: int| 0 <= k < quest_data@.len() implies #[trigger] quest_type_from_text(quest_data@[k].1@) is Some by {
                assert(quest_type_from_text(quest_data@[k].1@) == Some(types@[k]));
            }
        }
        let mut i: usize = 1;
        while i < n
            invariant
                n == quest_ids.len(),
                n == quest_data.len(),
                threshold <= total_shares,
                quests_valid(quest_data@),
                1 <= i,
                forall|a: int, b: int| 0 <= a < b < i && b < n ==> #[trigger] quest_ids@[a] < #[trigger] quest_ids@[b],
            decreases n - i,
        {
            if quest_ids[i - 1] >= quest_ids[i] {
                return Err(AppError::InternalError);
            }
            proof {
                assert forall|a: int, b: int| 0 <= a < b < i + 1 && b < n implies #[trigger] quest_ids@[a] < #[trigger] quest_ids@[b] by {
                    if b == i && a < i - 1 {
                        assert(quest_ids@[a] < quest_ids@[i - 1]);
                    }
                }
            }
            i = i + 1;
        }
        let ghost target = new_aggregate_spec(lock_id, quest_ids@, user_id@, opt_text(label), total_shares, threshold, quest_data@);
        let mut quests: Vec<Quest> = Vec::new();
        let mut i: usize = 0;
        while i < n
            invariant
                n == quest_data.len(),
                n == quest_ids.len(),
                i <= n,
                types@.len() == n,
                forall|k: int| 0 <= k < n ==> quest_type_from_text(quest_data@[k].1@) == Some(#[trigger] types@[k]),
                target == new_aggregate_spec(lock_id, quest_ids@, user_id@, opt_text(label), total_shares, threshold, quest_data@),
                quests@.len() == i,
                forall|k: int| 0 <= k < i ==> #[trigger] quests@[k]@ == target.quests[k],
            decreases n - i,
        {
            let q = Quest {
                id: quest_ids[i],
                lock_id,
                share: quest_data[i].0.clone(),
                quest_type: types[i],
                status: QuestStatus::PENDING,
                data: clone_data(&quest_data[i].2),
            };
            quests.push(q);
            i = i + 1;
        }
        let l = Lock { id: lock_id, user_id, label, total_shares, threshold, quests };
        assert(l@.quests =~= target.quests);
        Ok(l)
    }

    /// Creates a lock without quests. A threshold above the total shares is
    /// refused with a validation error and nothing is stored.
    pub fn create_lock(
        &self,
        repo: &mut MemoryStore,
        user_id: String,
        label: Option<String>,
        total_shares: u8,
        threshold: u8,
    ) -> (r: Result<LockDTO, AppError>)
        ensures
            threshold > total_shares ==> is_validation_error(r) && final(repo)@ == old(repo)@,
            threshold <= total_shares ==> {
                &&& r is Ok
                &&& exists|id: u128|
                    {
                        let l = #[trigger] new_aggregate_spec(id, Seq::empty(), user_id@, opt_text(label), total_shares, threshold, Seq::empty());
                        &&& final(repo)@ == save_spec(old(repo)@, l)
                        &&& r.unwrap()@ == lock_dto_of(l)
                    }
            },
    {
        let no_ids: Vec<u128> = Vec::new();
        let no_quests: Vec<(String, String, Vec<(String, String)>)> = Vec::new();
        let id = new_id();
        let lock = self.new_aggregate(id, &no_ids, user_id, label, total_shares, threshold, &no_quests)?;
        assert(no_quests@ =~= Seq::<(String, String, Vec<(String, String)>)>::empty());
        assert(no_ids@ =~= Seq::<u128>::empty());
        repo.save(&lock);
        Ok(LockDTO::from(lock))
    }

    /// Builds the complete aggregate, with the identifiers given, before the
    /// first write and saves it in one call. Validation as `new_aggregate`;
    /// quest identifiers out of ascending order are an internal error. Nothing
    /// is stored on failure.
    pub fn create_lock_with_quests_with_ids(
        &self,
        repo: &mut MemoryStore,
        lock_id: u128,
        quest_ids: &Vec<u128>,
        user_id: String,
        label: Option<String>,
        total_shares: u8,
        threshold: u8,
        quest_data: &Vec<(String, String, Vec<(String, String)>)>,
    ) -> (r: Result<LockDTO, AppError>)
        requires
            quest_ids.len() == quest_data.len(),
        ensures
            r is Err ==> final(repo)@ == old(repo)@,
            threshold > total_shares ==> is_validation_error(r),
            threshold <= total_shares && !quests_valid(quest_data@) ==> is_validation_error(r),
            threshold <= total_shares && quests_valid(quest_data@) && !strictly_ascending(quest_ids@)
                ==> r == Err::<LockDTO, AppError>(AppError::InternalError),
            threshold <= total_shares && quests_valid(quest_data@) && strictly_ascending(quest_ids@) ==> {
                let l = new_aggregate_spec(lock_id, quest_ids@, user_id@, opt_text(label), total_shares, threshold, quest_data@);
                &&& r is Ok
                &&& l.wf()
                &&& final(repo)@ == save_spec(old(repo)@, l)
                &&& r.unwrap()@ == lock_dto_of(l)
            },
    {
        let lock = self.new_aggregate(lock_id, quest_ids, user_id, label, total_shares, threshold, quest_data)?;
        repo.save(&lock);
        Ok(LockDTO::from(lock))
    }

    /// Builds the complete aggregate, lock and quests, before the first write,
    /// and saves it in one call.
    pub fn create_lock_with_quests(
        &self,
        repo: &mut MemoryStore,
        user_id: String,
        label: Option<String>,
        total_shares: u8,
        threshold: u8,
        quest_data: Vec<(String, String, Vec<(String, String)>)>,
    ) -> (r: Result<LockDTO, AppError>)
        ensures
            threshold > total_shares ==> is_validation_error(r),
            threshold <= total_shares && !quests_valid(quest_data@) ==> is_validation_error(r),
            threshold <= total_shares && quests_valid(quest_data@) ==> r is Ok || r == Err::<LockDTO, AppError>(AppError::InternalError),
            threshold <= total_shares && quests_valid(quest_data@) && quest_data@.len() <= 1 ==> r is Ok,
            r is Err ==> final(repo)@ == old(repo)@,
            r is Ok ==> exists|id: u128, ids: Seq<u128>|
                {
                    let l = #[trigger] new_aggregate_spec(id, ids, user_id@, opt_text(label), total_shares, threshold, quest_data@);
                    &&& ids.len() == quest_data@.len()
                    &&& l.wf()
                    &&& final(repo)@ == save_spec(old(repo)@, l)
                    &&& r.unwrap()@ == lock_dto_of(l)
                },
    {
        let id = new_id();
        let mut ids: Vec<u128> = Vec::new();
        let mut i: usize = 0;
        while i < quest_data.len()
            invariant
                i <= quest_data.len(),
                ids@.len() == i,
            decreases quest_data.len() - i,
        {
            ids.push(new_id());
            i = i + 1;
        }
        assert(ids@.len() <= 1 ==> strictly_ascending(ids@));
        let ghost lv = user_id@;
        let ghost lb = opt_text(label);
        let r = self.create_lock_with_quests_with_ids(repo, id, &ids, user_id, label, total_shares, threshold, &quest_data);
        proof {
            if r is Ok {
                let l = new_aggregate_spec(id, ids@, lv, lb, total_shares, threshold, quest_data@);
            }
        }
        r
    }

    /// Appends a pending quest with the given identifier to an existing lock.
    /// The quest row alone is written, so plans made concurrently against one
    /// lock do not overwrite each other. An unknown quest type, metadata with a
    /// repeated key or a malformed lock identifier is a validation error, an
    /// absent lock is not found, an identifier already stored is an internal
    /// error; nothing is stored then.
    pub fn plan_quest_with_id(
        &self,
        repo: &mut MemoryStore,
        lock_id: String,
        share: String,
        quest_type: String,
        data: Vec<(String, String)>,
        quest_id: u128,
    ) -> (r: Result<LockDTO, AppError>)
        ensures
            r is Err ==> final(repo)@ == old(repo)@,
            !plan_inputs_valid(quest_type@, data@) ==> is_validation_error(r),
            plan_inputs_valid(quest_type@, data@) && parsed_id_of(lock_id@) is None ==> is_validation_error(r)
                && r->Err_0->ValidationError_0@ == lock_id@,
            plan_inputs_valid(quest_type@, data@) && parsed_id_of(lock_id@) is Some
                && load_spec(old(repo)@, parsed_id_of(lock_id@).unwrap()) is None ==> is_not_found(r),
            plan_inputs_valid(quest_type@, data@) && parsed_id_of(lock_id@) is Some
                && load_spec(old(repo)@, parsed_id_of(lock_id@).unwrap()) is Some ==> {
                let id = parsed_id_of(lock_id@).unwrap();
                let q = planned_quest(quest_id, id, share@, quest_type_from_text(quest_type@).unwrap(), data_view(data@));
                let before = load_spec(old(repo)@, id).unwrap();
                &&& quest_pos(old(repo)@.quests, quest_id) >= 0 ==> r == Err::<LockDTO, AppError>(AppError::InternalError)
                &&& quest_pos(old(repo)@.quests, quest_id) < 0 ==> {
                    &&& r is Ok
                    &&& append_spec(old(repo)@, q) == Ok::<_, StoreError>(final(repo)@)
                    &&& load_spec(final(repo)@, id) is Some
                    &&& r.unwrap()@ == lock_dto_of(load_spec(final(repo)@, id).unwrap())
                    &&& load_spec(final(repo)@, id).unwrap().quests.contains(q)
                    &&& forall|x: QuestView| #[trigger] before.quests.contains(x)
                        ==> load_spec(final(repo)@, id).unwrap().quests.contains(x)
                    &&& (forall|k: int| 0 <= k < before.quests.len() ==> #[trigger] before.quests[k].id < quest_id)
                        ==> load_spec(final(repo)@, id).unwrap() == LockView { quests: before.quests.push(q), ..before }
                }
            },
    {
        let t = self._parse_quest_type(quest_type.as_str())?;
        if !keys_distinct(&data) {
            return Err(AppError::ValidationError(String::from_str("repeated metadata key")));
        }
        let id = self._parse_id(lock_id.as_str())?;
        let lock = match repo.get_by_id(id) {
            Some(l) => l,
            None => {
                return Err(AppError::NotFound(String::from_str("Lock not found")));
            },
        };
        let ghost m = repo@;
        proof {
            crate::store::lemma_lock_pos(m.locks, id);
            crate::store::lemma_quest_pos(m.quests, quest_id);
        }
        let ghost q = planned_quest(quest_id, id, share@, t, data_view(data@));
        let quest = Quest { id: quest_id, lock_id: lock.id, share, quest_type: t, status: QuestStatus::PENDING, data };
        assert(quest@ == q);
        match repo.append_quest(&quest) {
            Ok(()) => {},
            Err(_) => {
                return Err(AppError::InternalError);
            },
        }
        proof {
            let before = load_spec(m, id).unwrap();
            crate::store::lemma_insert_pos(m.quests, quest_id);
            crate::store::lemma_insert_contains(m.quests, crate::store::insert_pos(m.quests, quest_id), q);
            crate::store::lemma_quests_of_contents(m.quests, id);
            crate::store::lemma_quests_of_contents(repo@.quests, id);
            assert(repo@.locks == m.locks);
            assert(q.lock_id == id);
            if forall|k: int| 0 <= k < before.quests.len() ==> #[trigger] before.quests[k].id < quest_id {
                crate::store::lemma_insert_pos(m.quests, quest_id);
                crate::store::lemma_insert_quests_of(m.quests, q);
                assert(repo@.locks == m.locks);
            }
        }
        match repo.get_by_id(id) {
            Some(l) => Ok(LockDTO::from(l)),
            None => Err(AppError::InternalError),
        }
    }

    /// Appends a pending quest with a fresh identifier to an existing lock;
    /// see `plan_quest_with_id`. Only an identifier that is already stored can
    /// make a valid plan on an existing lock fail, so it always succeeds on a
    /// store without quest rows.
    pub fn plan_quest(
        &self,
        repo: &mut MemoryStore,
        lock_id: String,
        share: String,
        quest_type: String,
        data: Vec<(String, String)>,
    ) -> (r: Result<LockDTO, AppError>)
        ensures
            r is Err ==> final(repo)@ == old(repo)@,
            !plan_inputs_valid(quest_type@, data@) ==> is_validation_error(r),
            plan_inputs_valid(quest_type@, data@) && parsed_id_of(lock_id@) is None ==> is_validation_error(r)
                && r->Err_0->ValidationError_0@ == lock_id@,
            plan_inputs_valid(quest_type@, data@) && parsed_id_of(lock_id@) is Some
                && load_spec(old(repo)@, parsed_id_of(lock_id@).unwrap()) is None ==> is_not_found(r),
            plan_inputs_valid(quest_type@, data@) && parsed_id_of(lock_id@) is Some
                && load_spec(old(repo)@, parsed_id_of(lock_id@).unwrap()) is Some
                ==> r is Ok || r == Err::<LockDTO, AppError>(AppError::InternalError),
            plan_inputs_valid(quest_type@, data@) && parsed_id_of(lock_id@) is Some
                && load_spec(old(repo)@, parsed_id_of(lock_id@).unwrap()) is Some
                && old(repo)@.quests.len() == 0 ==> r is Ok,
            r is Ok ==> exists|qid: u128|
                {
                    let q = #[trigger] planned_quest(
                        qid,
                        parsed_id_of(lock_id@).unwrap(),
                        share@,
                        quest_type_from_text(quest_type@).unwrap(),
                        data_view(data@),
                    );
                    &&& append_spec(old(repo)@, q) == Ok::<_, StoreError>(final(repo)@)
                    &&& load_spec(final(repo)@, parsed_id_of(lock_id@).unwrap()) is Some
                    &&& r.unwrap()@ == lock_dto_of(load_spec(final(repo)@, parsed_id_of(lock_id@).unwrap()).unwrap())
                    &&& load_spec(final(repo)@, parsed_id_of(lock_id@).unwrap()).unwrap().quests.contains(q)
                    &&& forall|x: QuestView| #[trigger] load_spec(old(repo)@, parsed_id_of(lock_id@).unwrap()).unwrap().quests.contains(x)
                        ==> load_spec(final(repo)@, parsed_id_of(lock_id@).unwrap()).unwrap().quests.contains(x)
                },
    {
        let quest_id = new_id();
        let ghost d = data_view(data@);
        let ghost sh = share@;
        let r = self.plan_quest_with_id(repo, lock_id, share, quest_type, data, quest_id);
        proof {
            if r is Ok {
                let q = planned_quest(
                    quest_id,
                    parsed_id_of(lock_id@).unwrap(),
                    sh,
                    quest_type_from_text(quest_type@).unwrap(),
                    d,
                );
            }
        }
        r
    }
}

impl LockQueryService {
    pub fn create() -> (r: LockQueryService) {
        LockQueryService
    }

    /// Parses a lock identifier; malformed text is a validation error that
    /// carries it.
    pub fn _parse_id(&self, lock_id: &str) -> (r: Result<u128, AppError>)
        ensures
            match parsed_id_of(lock_id@) {
                Some(id) => r == Ok::<u128, AppError>(id),
                None => is_validation_error(r) && r->Err_0->ValidationError_0@ == lock_id@,
            },
    {
        match parse_id(lock_id) {
            Some(id) => Ok(id),
            None => Err(AppError::ValidationError(String::from_str(lock_id))),
        }
    }

    /// The decision after a load: an absent lock is not found, a lock of
    /// another owner is unauthorised, and the owner gets its projection.
    pub fn authorize(&self, user_id: &str, loaded: Option<Lock>) -> (r: Result<LockDTO, AppError>)
        ensures
            match loaded {
                None => is_not_found(r),
                Some(l) => if l.user_id@ == user_id@ {
                    r is Ok && r.unwrap()@ == lock_dto_of(l@)
                } else {
                    is_unauthorised(r)
                },
            },
    {
        match loaded {
            None => Err(AppError::NotFound(String::from_str("Lock not found"))),
            Some(lock) => {
                if !str_equals(lock.user_id.as_str(), user_id) {
                    return Err(
                        AppError::Unauthorised(
                            String::from_str("You are not authorised to access this resource"),
                        ),
                    );
                }
                Ok(LockDTO::from(lock))
            },
        }
    }

    /// Reads one lock for a caller. A malformed identifier is a validation
    /// error; an absent lock is not found; a lock of another owner is
    /// unauthorised, never not found.
    pub fn get_lock_by_id(&self, repo: &MemoryStore, user_id: String, lock_id: String) -> (r: Result<LockDTO, AppError>)
        ensures
            match parsed_id_of(lock_id@) {
                None => is_validation_error(r) && r->Err_0->ValidationError_0@ == lock_id@,
                Some(id) => match load_spec(repo@, id) {
                    None => is_not_found(r),
                    Some(l) => if l.user_id == user_id@ {
                        r is Ok && r.unwrap()@ == lock_dto_of(l)
                    } else {
                        is_unauthorised(r)
                    },
                },
            },
    {
        let id = self._parse_id(lock_id.as_str())?;
        let loaded = repo.get_by_id(id);
        self.authorize(user_id.as_str(), loaded)
    }

    /// Reads every lock of a caller, in store order; an owner without locks
    /// gets an empty list.
    pub fn get_locks(&self, repo: &MemoryStore, user_id: String) -> (r: Result<Vec<LockDTO>, AppError>)
        ensures
            r is Ok,
            lock_dtos_view(r.unwrap()@) == owner_locks(repo@.locks, repo@.quests, user_id@).map_values(
                |l: LockView| lock_dto_of(l),
            ),
            (forall|k: int| 0 <= k < repo@.locks.len() ==> #[trigger] repo@.locks[k].user_id != user_id@)
                ==> r.unwrap()@.len() == 0,
            forall|a: int, b: int|
                0 <= a < b < owner_locks(repo@.locks, repo@.quests, user_id@).len() ==> #[trigger] owner_locks(
                    repo@.locks,
                    repo@.quests,
                    user_id@,
                )[a].id < #[trigger] owner_locks(repo@.locks, repo@.quests, user_id@)[b].id,
    {
        let locks = repo.get_by_user_id(user_id.as_str());
        let dtos = lock_dtos(&locks);
        proof {
            crate::store::lemma_owner_locks_ascending(repo@.locks, repo@.quests, user_id@);
            if forall|k: int| 0 <= k < repo@.locks.len() ==> #[trigger] repo@.locks[k].user_id != user_id@ {
                crate::store::lemma_owner_without_rows(repo@.locks, repo@.quests, user_id@);
                assert(lock_dtos_view(dtos@).len() == 0);
            }
        }
        Ok(dtos)
    }
}

} // verus!
