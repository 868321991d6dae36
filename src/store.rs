//! An in-memory store with the relational write discipline: a locks table and
//! a quests table kept in ascending identifier order.
use vstd::prelude::*;

use crate::lock::{clone_opt_text, ids_ascending, quests_view, Lock, LockView};
use crate::models::{lock_row, model_of, LockModel, LockModelView};
use crate::quest::{Quest, QuestView};

verus! {

/// The contents of the two tables.
pub struct StoreView {
    pub locks: Seq<LockModelView>,
    pub quests: Seq<QuestView>,
}

/// Position of the row of a lock, or -1 when there is none.
pub open spec fn lock_pos(locks: Seq<LockModelView>, id: u128) -> int
    decreases locks.len(),
{
    if locks.len() == 0 {
        -1
    } else if locks.last().id == id {
        locks.len() - 1
    } else {
        lock_pos(locks.drop_last(), id)
    }
}

/// Position of the row of a quest, or -1 when there is none.
pub open spec fn quest_pos(quests: Seq<QuestView>, id: u128) -> int
    decreases quests.len(),
{
    if quests.len() == 0 {
        -1
    } else if quests.last().id == id {
        quests.len() - 1
    } else {
        quest_pos(quests.drop_last(), id)
    }
}

/// Where a quest with a new identifier goes to keep the table in ascending order.
pub open spec fn insert_pos(quests: Seq<QuestView>, id: u128) -> int
    decreases quests.len(),
{
    if quests.len() == 0 || quests.last().id < id {
        quests.len() as int
    } else {
        insert_pos(quests.drop_last(), id)
    }
}

/// The quests of one lock, in table order.
pub open spec fn quests_of(quests: Seq<QuestView>, lock_id: u128) -> Seq<QuestView>
    decreases quests.len(),
{
    if quests.len() == 0 {
        Seq::empty()
    } else if quests.last().lock_id == lock_id {
        quests_of(quests.drop_last(), lock_id).push(quests.last())
    } else {
        quests_of(quests.drop_last(), lock_id)
    }
}

/// Where a lock row with a new identifier goes to keep the table in ascending order.
pub open spec fn lock_insert_pos(locks: Seq<LockModelView>, id: u128) -> int
    decreases locks.len(),
{
    if locks.len() == 0 || locks.last().id < id {
        locks.len() as int
    } else {
        lock_insert_pos(locks.drop_last(), id)
    }
}

/// Insert the lock row, or on a conflicting identifier update its label only.
pub open spec fn upsert_lock(locks: Seq<LockModelView>, l: LockView) -> Seq<LockModelView> {
    let p = lock_pos(locks, l.id);
    if p < 0 {
        locks.insert(lock_insert_pos(locks, l.id), model_of(l))
    } else {
        locks.update(p, LockModelView { label: l.label, ..locks[p] })
    }
}

/// Insert the quest row, or on a conflicting identifier update its status only:
/// type, share and metadata are written once.
pub open spec fn upsert_quest(quests: Seq<QuestView>, q: QuestView) -> Seq<QuestView> {
    let p = quest_pos(quests, q.id);
    if p < 0 {
        quests.insert(insert_pos(quests, q.id), q)
    } else {
        quests.update(p, QuestView { status: q.status, ..quests[p] })
    }
}

/// Upserts quests one after the other.
pub open spec fn upsert_quests(quests: Seq<QuestView>, qs: Seq<QuestView>) -> Seq<QuestView>
    decreases qs.len(),
{
    if qs.len() == 0 {
        quests
    } else {
        upsert_quests(upsert_quest(quests, qs[0]), qs.drop_first())
    }
}

/// The tables after saving an aggregate.
pub open spec fn save_spec(m: StoreView, l: LockView) -> StoreView {
    StoreView { locks: upsert_lock(m.locks, l), quests: upsert_quests(m.quests, l.quests) }
}

/// The aggregate rebuilt from a lock row and the quests table.
pub open spec fn assemble(r: LockModelView, quests: Seq<QuestView>) -> LockView {
    LockView {
        id: r.id,
        user_id: r.user_id,
        label: r.label,
        total_shares: r.total_shares as u8,
        threshold: r.threshold as u8,
        quests: quests_of(quests, r.id),
    }
}

/// The aggregate of a lock read back by identifier, or nothing when its row is absent.
pub open spec fn load_spec(m: StoreView, id: u128) -> Option<LockView> {
    let p = lock_pos(m.locks, id);
    if p < 0 {
        None
    } else {
        Some(assemble(m.locks[p], m.quests))
    }
}

/// The aggregates of one owner, in lock-table order.
pub open spec fn owner_locks(locks: Seq<LockModelView>, quests: Seq<QuestView>, user_id: Seq<char>) -> Seq<LockView>
    decreases locks.len(),
{
    if locks.len() == 0 {
        Seq::empty()
    } else if locks.last().user_id == user_id {
        owner_locks(locks.drop_last(), quests, user_id).push(assemble(locks.last(), quests))
    } else {
        owner_locks(locks.drop_last(), quests, user_id)
    }
}

/// The quests of every lock but one, in table order.
pub open spec fn quests_not_of(quests: Seq<QuestView>, lock_id: u128) -> Seq<QuestView>
    decreases quests.len(),
{
    if quests.len() == 0 {
        Seq::empty()
    } else if quests.last().lock_id != lock_id {
        quests_not_of(quests.drop_last(), lock_id).push(quests.last())
    } else {
        quests_not_of(quests.drop_last(), lock_id)
    }
}

/// The tables after deleting a lock: its row goes, and its quests with it.
pub open spec fn delete_spec(m: StoreView, id: u128) -> StoreView {
    let p = lock_pos(m.locks, id);
    if p < 0 {
        m
    } else {
        StoreView { locks: m.locks.remove(p), quests: quests_not_of(m.quests, id) }
    }
}

/// Adding one quest row to an existing lock: refused when the lock row is
/// absent or the quest identifier is taken; other rows are left as they are.
pub open spec fn append_spec(m: StoreView, q: QuestView) -> Result<StoreView, StoreError> {
    if lock_pos(m.locks, q.lock_id) < 0 {
        Err(StoreError::LockMissing)
    } else if quest_pos(m.quests, q.id) >= 0 {
        Err(StoreError::QuestExists)
    } else {
        Ok(StoreView { locks: m.locks, quests: m.quests.insert(insert_pos(m.quests, q.id), q) })
    }
}

/// No two quests of the sequence share an identifier.
pub open spec fn ids_distinct(qs: Seq<QuestView>) -> bool {
    forall|a: int, b: int| 0 <= a < b < qs.len() ==> #[trigger] qs[a].id != #[trigger] qs[b].id
}

/// Lock identifiers strictly increase along the locks table.
pub open spec fn lock_ids_ascending(locks: Seq<LockModelView>) -> bool {
    forall|a: int, b: int| 0 <= a < b < locks.len() ==> #[trigger] locks[a].id < #[trigger] locks[b].id
}

impl StoreView {
    /// The tables' invariant: both tables in ascending identifier order.
    pub open spec fn wf(self) -> bool {
        lock_ids_ascending(self.locks) && ids_ascending(self.quests)
    }
}

/// Storage failures of the in-memory store.
#[derive(Debug, PartialEq, Eq, Clone, Copy, Structural)]
pub enum StoreError {
    LockMissing,
    QuestExists,
}

/// The in-memory implementation of the aggregate store.
pub struct MemoryStore {
    locks: Vec<LockModel>,
    quests: Vec<Quest>,
}

/// The values of a sequence of lock rows.
pub open spec fn lock_models_view(ls: Seq<LockModel>) -> Seq<LockModelView> {
    ls.map_values(|l: LockModel| l@)
}

impl MemoryStore {
    /// Unique lock identifiers, quests in ascending identifier order.
    #[verifier::type_invariant]
    spec fn inv(&self) -> bool {
        self@.wf()
    }
}

impl View for MemoryStore {
    type V = StoreView;

    closed spec fn view(&self) -> StoreView {
        StoreView { locks: lock_models_view(self.locks@), quests: quests_view(self.quests@) }
    }
}

/// What a lock position means: the row there has the identifier, and no row
/// has it when the position is -1.
pub proof fn lemma_lock_pos(locks: Seq<LockModelView>, id: u128)
    ensures
        -1 <= lock_pos(locks, id) < locks.len(),
        lock_pos(locks, id) >= 0 ==> locks[lock_pos(locks, id)].id == id,
        lock_pos(locks, id) == -1 ==> forall|k: int| 0 <= k < locks.len() ==> #[trigger] locks[k].id != id,
    decreases locks.len(),
{
    if locks.len() > 0 {
        lemma_lock_pos(locks.drop_last(), id);
        if locks.last().id != id {
            assert forall|k: int| 0 <= k < locks.len() - 1 implies #[trigger] locks[k].id == locks.drop_last()[k].id by {}
        }
    }
}

/// What a quest position means: the row there has the identifier, and no row
/// has it when the position is -1.
pub proof fn lemma_quest_pos(quests: Seq<QuestView>, id: u128)
    ensures
        -1 <= quest_pos(quests, id) < quests.len(),
        quest_pos(quests, id) >= 0 ==> quests[quest_pos(quests, id)].id == id,
        quest_pos(quests, id) == -1 ==> forall|k: int| 0 <= k < quests.len() ==> #[trigger] quests[k].id != id,
    decreases quests.len(),
{
    if quests.len() > 0 {
        lemma_quest_pos(quests.drop_last(), id);
        if quests.last().id != id {
            assert forall|k: int| 0 <= k < quests.len() - 1 implies #[trigger] quests[k].id == quests.drop_last()[k].id by {}
        }
    }
}

/// In an ascending table without the identifier, the insertion point splits
/// the smaller identifiers from the larger ones.
pub proof fn lemma_insert_pos(quests: Seq<QuestView>, id: u128)
    requires
        ids_ascending(quests),
        forall|k: int| 0 <= k < quests.len() ==> #[trigger] quests[k].id != id,
    ensures
        0 <= insert_pos(quests, id) <= quests.len(),
        forall|k: int| 0 <= k < insert_pos(quests, id) ==> #[trigger] quests[k].id < id,
        forall|k: int| insert_pos(quests, id) <= k < quests.len() ==> #[trigger] quests[k].id > id,
    decreases quests.len(),
{
    if quests.len() > 0 {
        let pre = quests.drop_last();
        assert(quests.last() == quests[quests.len() - 1]);
        assert forall|k: int| 0 <= k < pre.len() implies #[trigger] pre[k] == quests[k] by {}
        if quests.last().id < id {
            assert forall|k: int| 0 <= k < quests.len() implies #[trigger] quests[k].id < id by {
                if k < quests.len() - 1 {
                    assert(quests[k].id < quests[quests.len() - 1].id);
                }
            }
        } else {
            assert forall|a: int, b: int| 0 <= a < b < pre.len() implies #[trigger] pre[a].id < #[trigger] pre[b].id by {
                assert(quests[a].id < quests[b].id);
            }
            assert forall|k: int| 0 <= k < pre.len() implies #[trigger] pre[k].id != id by {
                assert(quests[k].id != id);
            }
            lemma_insert_pos(pre, id);
            let p = insert_pos(pre, id);
            assert(insert_pos(quests, id) == p);
            assert forall|k: int| 0 <= k < p implies #[trigger] quests[k].id < id by {
                assert(pre[k].id < id);
            }
            assert forall|k: int| p <= k < quests.len() implies #[trigger] quests[k].id > id by {
                if k < pre.len() {
                    assert(pre[k].id > id);
                } else {
                    assert(quests[k].id != id);
                }
            }
        }
    }
}

/// In an ascending lock table without the identifier, the insertion point
/// splits the smaller identifiers from the larger ones.
pub proof fn lemma_lock_insert_pos(locks: Seq<LockModelView>, id: u128)
    requires
        lock_ids_ascending(locks),
        forall|k: int| 0 <= k < locks.len() ==> #[trigger] locks[k].id != id,
    ensures
        0 <= lock_insert_pos(locks, id) <= locks.len(),
        forall|k: int| 0 <= k < lock_insert_pos(locks, id) ==> #[trigger] locks[k].id < id,
        forall|k: int| lock_insert_pos(locks, id) <= k < locks.len() ==> #[trigger] locks[k].id > id,
    decreases locks.len(),
{
    if locks.len() > 0 {
        let pre = locks.drop_last();
        assert(locks.last() == locks[locks.len() - 1]);
        assert forall|k: int| 0 <= k < pre.len() implies #[trigger] pre[k] == locks[k] by {}
        if locks.last().id < id {
            assert forall|k: int| 0 <= k < locks.len() implies #[trigger] locks[k].id < id by {
                if k < locks.len() - 1 {
                    assert(locks[k].id < locks[locks.len() - 1].id);
                }
            }
        } else {
            assert forall|a: int, b: int| 0 <= a < b < pre.len() implies #[trigger] pre[a].id < #[trigger] pre[b].id by {
                assert(locks[a].id < locks[b].id);
            }
            assert forall|k: int| 0 <= k < pre.len() implies #[trigger] pre[k].id != id by {
                assert(locks[k].id != id);
            }
            lemma_lock_insert_pos(pre, id);
            let p = lock_insert_pos(pre, id);
            assert forall|k: int| 0 <= k < p implies #[trigger] locks[k].id < id by {
                assert(pre[k].id < id);
            }
            assert forall|k: int| p <= k < locks.len() implies #[trigger] locks[k].id > id by {
                if k < pre.len() {
                    assert(pre[k].id > id);
                } else {
                    assert(locks[k].id != id);
                }
            }
        }
    }
}

/// Upserting a lock row keeps the locks table in ascending identifier order.
pub proof fn lemma_upsert_lock_ascending(locks: Seq<LockModelView>, l: LockView)
    requires
        lock_ids_ascending(locks),
    ensures
        lock_ids_ascending(upsert_lock(locks, l)),
{
    lemma_lock_pos(locks, l.id);
    let p = lock_pos(locks, l.id);
    let r = upsert_lock(locks, l);
    if p < 0 {
        lemma_lock_insert_pos(locks, l.id);
        let i = lock_insert_pos(locks, l.id);
        assert forall|a: int, b: int| 0 <= a < b < r.len() implies #[trigger] r[a].id < #[trigger] r[b].id by {
            if b < i {
                assert(r[a] == locks[a] && r[b] == locks[b]);
            } else if b == i {
                assert(r[a] == locks[a]);
            } else if a < i {
                assert(r[a] == locks[a] && r[b] == locks[b - 1]);
            } else if a == i {
                assert(r[b] == locks[b - 1]);
            } else {
                assert(r[a] == locks[a - 1] && r[b] == locks[b - 1]);
            }
        }
    } else {
        assert forall|a: int, b: int| 0 <= a < b < r.len() implies #[trigger] r[a].id < #[trigger] r[b].id by {
            assert(r[a].id == locks[a].id && r[b].id == locks[b].id);
        }
    }
}

/// In an ascending lock table the row of an identifier is found where it stands.
pub proof fn lemma_lock_ascending_unique(locks: Seq<LockModelView>, k: int)
    requires
        lock_ids_ascending(locks),
        0 <= k < locks.len(),
    ensures
        lock_pos(locks, locks[k].id) == k,
{
    lemma_lock_pos(locks, locks[k].id);
    let p = lock_pos(locks, locks[k].id);
    if p != k {
        if p < k {
            assert(locks[p].id < locks[k].id);
        } else {
            assert(locks[k].id < locks[p].id);
        }
    }
}

/// Upserting a quest keeps the quests table in ascending identifier order.
pub proof fn lemma_upsert_quest_ascending(quests: Seq<QuestView>, q: QuestView)
    requires
        ids_ascending(quests),
    ensures
        ids_ascending(upsert_quest(quests, q)),
{
    lemma_quest_pos(quests, q.id);
    let p = quest_pos(quests, q.id);
    if p < 0 {
        lemma_insert_pos(quests, q.id);
        let i = insert_pos(quests, q.id);
        let r = quests.insert(i, q);
        assert forall|a: int, b: int| 0 <= a < b < r.len() implies #[trigger] r[a].id < #[trigger] r[b].id by {
            if b < i {
                assert(r[a] == quests[a] && r[b] == quests[b]);
            } else if b == i {
                assert(r[a] == quests[a]);
            } else if a < i {
                assert(r[a] == quests[a] && r[b] == quests[b - 1]);
            } else if a == i {
                assert(r[b] == quests[b - 1]);
            } else {
                assert(r[a] == quests[a - 1] && r[b] == quests[b - 1]);
            }
        }
    } else {
        let r = upsert_quest(quests, q);
        assert forall|a: int, b: int| 0 <= a < b < r.len() implies #[trigger] r[a].id < #[trigger] r[b].id by {
            assert(r[a].id == quests[a].id && r[b].id == quests[b].id);
        }
    }
}

/// Finds the row of a lock.
fn find_lock(locks: &Vec<LockModel>, id: u128) -> (r: Option<usize>)
    ensures
        match r {
            Some(k) => k < locks.len() && lock_pos(lock_models_view(locks@), id) == k,
            None => lock_pos(lock_models_view(locks@), id) == -1,
        },
{
    let ghost ls = lock_models_view(locks@);
    let mut k: usize = locks.len();
    assert(ls.subrange(0, k as int) =~= ls);
    while k > 0
        invariant
            k <= locks.len(),
            ls == lock_models_view(locks@),
            lock_pos(ls, id) == lock_pos(ls.subrange(0, k as int), id),
        decreases k,
    {
        assert(ls.subrange(0, k as int).drop_last() =~= ls.subrange(0, k - 1));
        if locks[k - 1].id == id {
            return Some(k - 1);
        }
        k = k - 1;
    }
    None
}

/// Finds the row of a quest.
fn find_quest(quests: &Vec<Quest>, id: u128) -> (r: Option<usize>)
    ensures
        match r {
            Some(k) => k < quests.len() && quest_pos(quests_view(quests@), id) == k,
            None => quest_pos(quests_view(quests@), id) == -1,
        },
{
    let ghost qs = quests_view(quests@);
    let mut k: usize = quests.len();
    assert(qs.subrange(0, k as int) =~= qs);
    while k > 0
        invariant
            k <= quests.len(),
            qs == quests_view(quests@),
            quest_pos(qs, id) == quest_pos(qs.subrange(0, k as int), id),
        decreases k,
    {
        assert(qs.subrange(0, k as int).drop_last() =~= qs.subrange(0, k - 1));
        if quests[k - 1].id == id {
            return Some(k - 1);
        }
        k = k - 1;
    }
    None
}

/// Where a quest with a new identifier goes.
fn insertion_point(quests: &Vec<Quest>, id: u128) -> (r: usize)
    ensures
        r <= quests.len(),
        r == insert_pos(quests_view(quests@), id),
{
    let ghost qs = quests_view(quests@);
    let mut k: usize = quests.len();
    assert(qs.subrange(0, k as int) =~= qs);
    while k > 0 && !(quests[k - 1].id < id)
        invariant
            k <= quests.len(),
            qs == quests_view(quests@),
            insert_pos(qs, id) == insert_pos(qs.subrange(0, k as int), id),
        decreases k,
    {
        assert(qs.subrange(0, k as int).drop_last() =~= qs.subrange(0, k - 1));
        k = k - 1;
    }
    assert(insert_pos(qs.subrange(0, k as int), id) == k);
    k
}

/// Where a lock row with a new identifier goes.
fn lock_insertion_point(locks: &Vec<LockModel>, id: u128) -> (r: usize)
    ensures
        r <= locks.len(),
        r == lock_insert_pos(lock_models_view(locks@), id),
{
    let ghost ls = lock_models_view(locks@);
    let mut k: usize = locks.len();
    assert(ls.subrange(0, k as int) =~= ls);
    while k > 0 && !(locks[k - 1].id < id)
        invariant
            k <= locks.len(),
            ls == lock_models_view(locks@),
            lock_insert_pos(ls, id) == lock_insert_pos(ls.subrange(0, k as int), id),
        decreases k,
    {
        assert(ls.subrange(0, k as int).drop_last() =~= ls.subrange(0, k - 1));
        k = k - 1;
    }
    assert(lock_insert_pos(ls.subrange(0, k as int), id) == k);
    k
}

/// Upserts one quest into the table.
fn upsert_quest_row(quests: &mut Vec<Quest>, q: &Quest)
    ensures
        quests_view(final(quests)@) == upsert_quest(quests_view(old(quests)@), q@),
{
    let ghost qs = quests_view(quests@);
    match find_quest(quests, q.id) {
        Some(p) => {
            let mut row = quests.remove(p);
            row.status = q.status;
            quests.insert(p, row);
            assert(quests_view(quests@) =~= qs.update(p as int, QuestView { status: q.status, ..qs[p as int] }));
        },
        None => {
            let k = insertion_point(quests, q.id);
            quests.insert(k, q.clone());
            assert(quests_view(quests@) =~= qs.insert(k as int, q@));
        },
    }
}

impl MemoryStore {
    /// An empty store.
    pub fn new() -> (r: MemoryStore)
        ensures
            r@.wf(),
            r@.locks.len() == 0,
            r@.quests.len() == 0,
    {
        let r = MemoryStore { locks: Vec::new(), quests: Vec::new() };
        assert(r@.locks =~= Seq::<LockModelView>::empty());
        assert(r@.quests =~= Seq::<QuestView>::empty());
        r
    }

    /// Saves the aggregate as one unit: the lock row is inserted, or on
    /// conflict only its label is updated; each quest row is inserted, or on
    /// conflict only its status is updated.
    pub fn save(&mut self, lock: &Lock) -> (r: bool)
        ensures
            final(self)@.wf(),
            final(self)@ == save_spec(old(self)@, lock@),
            r,
    {
        proof {
            use_type_invariant(&*self);
        }
        let ghost m = self@;
        let ghost lv = lock@;
        let mut locks: Vec<LockModel> = Vec::new();
        std::mem::swap(&mut locks, &mut self.locks);
        let mut quests: Vec<Quest> = Vec::new();
        std::mem::swap(&mut quests, &mut self.quests);
        assert(lock_models_view(locks@) == m.locks);
        assert(quests_view(quests@) == m.quests);
        proof {
            lemma_lock_pos(m.locks, lock.id);
        }
        match find_lock(&locks, lock.id) {
            None => {
                let k = lock_insertion_point(&locks, lock.id);
                locks.insert(k, lock_row(lock));
            },
            Some(p) => {
                let mut row = locks.remove(p);
                row.label = clone_opt_text(&lock.label);
                locks.insert(p, row);
            },
        }
        assert(lock_models_view(locks@) =~= upsert_lock(m.locks, lv));
        let n = lock.quests.len();
        let mut i: usize = 0;
        assert(lv.quests.subrange(0, n as int) =~= lv.quests);
        while i < n
            invariant
                n == lock.quests.len(),
                lv == lock@,
                i <= n,
                lock_models_view(locks@) == upsert_lock(m.locks, lv),
                ids_ascending(quests_view(quests@)),
                upsert_quests(quests_view(quests@), lv.quests.subrange(i as int, n as int))
                    == upsert_quests(m.quests, lv.quests),
            decreases n - i,
        {
            let ghost cur = quests_view(quests@);
            let ghost rest = lv.quests.subrange(i as int, n as int);
            assert(rest[0] == lock.quests@[i as int]@);
            assert(rest.drop_first() =~= lv.quests.subrange(i as int + 1, n as int));
            proof {
                lemma_upsert_quest_ascending(cur, rest[0]);
            }
            upsert_quest_row(&mut quests, &lock.quests[i]);
            i = i + 1;
        }
        proof {
            assert(lv.quests.subrange(n as int, n as int) =~= Seq::<QuestView>::empty());
            lemma_upsert_lock_ascending(m.locks, lv);
        }
        self.locks = locks;
        self.quests = quests;
        true
    }

    /// The aggregate of a lock row, with its quests in ascending identifier order.
    fn assemble_lock(&self, row: &LockModel) -> (r: Lock)
        ensures
            r@ == assemble(row@, self@.quests),
    {
        let ghost qs = self@.quests;
        let mut quests: Vec<Quest> = Vec::new();
        let mut i: usize = 0;
        while i < self.quests.len()
            invariant
                i <= self.quests.len(),
                qs == quests_view(self.quests@),
                quests_view(quests@) == quests_of(qs.subrange(0, i as int), row.id),
            decreases self.quests.len() - i,
        {
            assert(qs.subrange(0, i as int + 1).drop_last() =~= qs.subrange(0, i as int));
            assert(qs.subrange(0, i as int + 1).last() == self.quests@[i as int]@);
            if self.quests[i].lock_id == row.id {
                quests.push(self.quests[i].clone());
                assert(quests_view(quests@) =~= quests_of(qs.subrange(0, i as int + 1), row.id));
            }
            i = i + 1;
        }
        assert(qs.subrange(0, self.quests.len() as int) =~= qs);
        Lock {
            id: row.id,
            user_id: row.user_id.clone(),
            label: clone_opt_text(&row.label),
            total_shares: row.total_shares as u8,
            threshold: row.threshold as u8,
            quests,
        }
    }

    /// Reads a lock and all its quests, ordered by identifier; absent when the
    /// lock row is.
    pub fn get_by_id(&self, id: u128) -> (r: Option<Lock>)
        ensures
            self@.wf(),
            match r {
                Some(l) => load_spec(self@, id) == Some(l@),
                None => load_spec(self@, id) is None,
            },
    {
        proof {
            use_type_invariant(self);
        }
        match find_lock(&self.locks, id) {
            None => None,
            Some(p) => {
                assert(self@.locks[p as int] == self.locks@[p as int]@);
                Some(self.assemble_lock(&self.locks[p]))
            },
        }
    }

    /// Reads every lock of an owner with its quests, in table order.
    pub fn get_by_user_id(&self, user_id: &str) -> (r: Vec<Lock>)
        ensures
            self@.wf(),
            crate::join::locks_view(r@) == owner_locks(self@.locks, self@.quests, user_id@),
            forall|a: int, b: int| 0 <= a < b < r@.len() ==> #[trigger] r@[a].id < #[trigger] r@[b].id,
    {
        proof {
            use_type_invariant(self);
        }
        let ghost ls = self@.locks;
        let mut out: Vec<Lock> = Vec::new();
        let mut i: usize = 0;
        while i < self.locks.len()
            invariant
                i <= self.locks.len(),
                ls == lock_models_view(self.locks@),
                ls == self@.locks,
                crate::join::locks_view(out@) == owner_locks(ls.subrange(0, i as int), self@.quests, user_id@),
            decreases self.locks.len() - i,
        {
            assert(ls.subrange(0, i as int + 1).drop_last() =~= ls.subrange(0, i as int));
            assert(ls.subrange(0, i as int + 1).last() == self.locks@[i as int]@);
            if crate::text::str_equals(self.locks[i].user_id.as_str(), user_id) {
                let l = self.assemble_lock(&self.locks[i]);
                out.push(l);
                assert(crate::join::locks_view(out@) =~= owner_locks(ls.subrange(0, i as int + 1), self@.quests, user_id@));
            }
            i = i + 1;
        }
        assert(ls.subrange(0, self.locks.len() as int) =~= ls);
        proof {
            lemma_owner_locks_ascending(ls, self@.quests, user_id@);
            assert forall|a: int, b: int| 0 <= a < b < out@.len() implies #[trigger] out@[a].id < #[trigger] out@[b].id by {
                assert(crate::join::locks_view(out@)[a].id == out@[a].id);
                assert(crate::join::locks_view(out@)[b].id == out@[b].id);
            }
        }
        out
    }

    /// Deletes a lock's row and, with it, its quests; tells whether a row was deleted.
    pub fn delete(&mut self, lock: &Lock) -> (r: bool)
        ensures
            final(self)@.wf(),
            final(self)@ == delete_spec(old(self)@, lock.id),
            r == (lock_pos(old(self)@.locks, lock.id) >= 0),
    {
        proof {
            use_type_invariant(&*self);
        }
        let ghost m = self@;
        match find_lock(&self.locks, lock.id) {
            None => false,
            Some(p) => {
                let mut locks: Vec<LockModel> = Vec::new();
                std::mem::swap(&mut locks, &mut self.locks);
                assert(lock_models_view(locks@) == m.locks);
                locks.remove(p);
                assert(lock_models_view(locks@) =~= m.locks.remove(p as int));
                let ghost qs = m.quests;
                let mut kept: Vec<Quest> = Vec::new();
                let mut i: usize = 0;
                while i < self.quests.len()
                    invariant
                        i <= self.quests.len(),
                        qs == quests_view(self.quests@),
                        ids_ascending(qs),
                        ids_ascending(quests_view(kept@)),
                        quests_view(kept@) == quests_not_of(qs.subrange(0, i as int), lock.id),
                        forall|a: int, b: int|
                            0 <= a < kept@.len() && i <= b < qs.len() ==> #[trigger] kept@[a].id < #[trigger] qs[b].id,
                    decreases self.quests.len() - i,
                {
                    assert(qs.subrange(0, i as int + 1).drop_last() =~= qs.subrange(0, i as int));
                    assert(qs.subrange(0, i as int + 1).last() == self.quests@[i as int]@);
                    if self.quests[i].lock_id != lock.id {
                        let ghost before = quests_view(kept@);
                        kept.push(self.quests[i].clone());
                        assert(quests_view(kept@) =~= quests_not_of(qs.subrange(0, i as int + 1), lock.id));
                        assert forall|a: int, b: int| 0 <= a < b < quests_view(kept@).len() implies
                            #[trigger] quests_view(kept@)[a].id < #[trigger] quests_view(kept@)[b].id by {
                            if b < before.len() {
                                assert(before[a].id < before[b].id);
                            } else {
                                assert(kept@[a].id < qs[i as int].id);
                            }
                        }
                        assert forall|a: int, b: int|
                            0 <= a < kept@.len() && i + 1 <= b < qs.len() implies #[trigger] kept@[a].id < #[trigger] qs[b].id by {
                            if a < before.len() {
                                assert(kept@[a]@ == before[a]);
                            } else {
                                assert(qs[i as int].id < qs[b].id);
                            }
                        }
                    }
                    i = i + 1;
                }
                assert(qs.subrange(0, self.quests.len() as int) =~= qs);
                proof {
                    let ls = m.locks.remove(p as int);
                    assert forall|a: int, b: int| 0 <= a < b < ls.len() implies #[trigger] ls[a].id < #[trigger] ls[b].id by {
                        if b < p {
                            assert(ls[a] == m.locks[a] && ls[b] == m.locks[b]);
                        } else if a < p {
                            assert(ls[a] == m.locks[a] && ls[b] == m.locks[b + 1]);
                        } else {
                            assert(ls[a] == m.locks[a + 1] && ls[b] == m.locks[b + 1]);
                        }
                    }
                }
                self.locks = locks;
                self.quests = kept;
                true
            },
        }
    }

    /// Adds one quest row for an existing lock, leaving every other row as it
    /// is; fails explicitly when the lock is absent or the identifier is taken.
    pub fn append_quest(&mut self, quest: &Quest) -> (r: Result<(), StoreError>)
        ensures
            final(self)@.wf(),
            match append_spec(old(self)@, quest@) {
                Ok(m) => r is Ok && final(self)@ == m,
                Err(e) => r == Err::<(), StoreError>(e) && final(self)@ == old(self)@,
            },
    {
        proof {
            use_type_invariant(&*self);
        }
        let ghost m = self@;
        if find_lock(&self.locks, quest.lock_id).is_none() {
            return Err(StoreError::LockMissing);
        }
        if find_quest(&self.quests, quest.id).is_some() {
            return Err(StoreError::QuestExists);
        }
        proof {
            lemma_upsert_quest_ascending(m.quests, quest@);
        }
        let mut quests: Vec<Quest> = Vec::new();
        std::mem::swap(&mut quests, &mut self.quests);
        upsert_quest_row(&mut quests, quest);
        self.quests = quests;
        Ok(())
    }
}


proof fn lemma_quests_of_none(quests: Seq<QuestView>, lock_id: u128)
    requires
        forall|k: int| 0 <= k < quests.len() ==> #[trigger] quests[k].lock_id != lock_id,
    ensures
        quests_of(quests, lock_id) == Seq::<QuestView>::empty(),
    decreases quests.len(),
{
    if quests.len() > 0 {
        assert(quests.last() == quests[quests.len() - 1]);
        assert forall|k: int| 0 <= k < quests.len() - 1 implies #[trigger] quests.drop_last()[k].lock_id != lock_id by {
            assert(quests.drop_last()[k] == quests[k]);
        }
        lemma_quests_of_none(quests.drop_last(), lock_id);
    }
}

proof fn lemma_ascending_prefix(quests: Seq<QuestView>)
    requires
        ids_ascending(quests),
        quests.len() > 0,
    ensures
        ids_ascending(quests.drop_last()),
{
    let pre = quests.drop_last();
    assert forall|a: int, b: int| 0 <= a < b < pre.len() implies #[trigger] pre[a].id < #[trigger] pre[b].id by {
        assert(quests[a].id < quests[b].id);
    }
}

/// Inserting a new quest of a lock whose identifier exceeds those of the lock's
/// quests appends it to that lock's quests.
pub proof fn lemma_insert_quests_of(t: Seq<QuestView>, q: QuestView)
    requires
        ids_ascending(t),
        forall|k: int| 0 <= k < t.len() ==> #[trigger] t[k].id != q.id,
        forall|k: int| 0 <= k < quests_of(t, q.lock_id).len() ==> #[trigger] quests_of(t, q.lock_id)[k].id < q.id,
    ensures
        quests_of(t.insert(insert_pos(t, q.id), q), q.lock_id) == quests_of(t, q.lock_id).push(q),
    decreases t.len(),
{
    let lid = q.lock_id;
    if t.len() == 0 {
        let one = t.insert(0, q);
        assert(one.len() == 1);
        assert(one.drop_last() =~= Seq::<QuestView>::empty());
        assert(one.last() == q);
        assert(quests_of(one.drop_last(), lid) == Seq::<QuestView>::empty());
        assert(quests_of(one, lid) == Seq::<QuestView>::empty().push(q));
        assert(quests_of(t, lid) == Seq::<QuestView>::empty());
    } else if t.last().id < q.id {
        assert(insert_pos(t, q.id) == t.len());
        assert(t.insert(t.len() as int, q) =~= t.push(q));
        assert(t.push(q).drop_last() =~= t);
        assert(quests_of(t.push(q), lid) == quests_of(t, lid).push(q));
    } else {
        let pre = t.drop_last();
        let last = t.last();
        if last.lock_id == lid {
            let qo = quests_of(t, lid);
            assert(qo[qo.len() - 1] == last);
            assert(false);
        }
        lemma_ascending_prefix(t);
        assert forall|k: int| 0 <= k < pre.len() implies #[trigger] pre[k].id != q.id by {
            assert(pre[k] == t[k]);
        }
        assert(quests_of(t, lid) == quests_of(pre, lid));
        lemma_insert_pos(t, q.id);
        lemma_insert_pos(pre, q.id);
        let p = insert_pos(pre, q.id);
        assert(insert_pos(t, q.id) == p);
        lemma_insert_quests_of(pre, q);
        let big = t.insert(p, q);
        assert(big.drop_last() =~= pre.insert(p, q));
        assert(big.last() == last);
        assert(quests_of(big, lid) == quests_of(pre.insert(p, q), lid));
    }
}

proof fn lemma_upsert_fresh_quests(t: Seq<QuestView>, qs: Seq<QuestView>, lid: u128)
    requires
        ids_ascending(t),
        ids_ascending(qs),
        crate::lock::all_in_lock(qs, lid),
        forall|k: int, j: int| 0 <= k < t.len() && 0 <= j < qs.len() ==> #[trigger] t[k].id != #[trigger] qs[j].id,
        forall|k: int, j: int|
            0 <= k < quests_of(t, lid).len() && 0 <= j < qs.len() ==> #[trigger] quests_of(t, lid)[k].id < #[trigger] qs[j].id,
    ensures
        quests_of(upsert_quests(t, qs), lid) == quests_of(t, lid) + qs,
    decreases qs.len(),
{
    if qs.len() == 0 {
        assert(quests_of(t, lid) + qs =~= quests_of(t, lid));
    } else {
        let q0 = qs[0];
        let rest = qs.drop_first();
        lemma_quest_pos(t, q0.id);
        assert forall|k: int| 0 <= k < t.len() implies #[trigger] t[k].id != q0.id by {
            assert(t[k].id != qs[0].id);
        }
        assert(quest_pos(t, q0.id) < 0);
        let t1 = upsert_quest(t, q0);
        assert(t1 == t.insert(insert_pos(t, q0.id), q0));
        assert(q0.lock_id == lid);
        assert forall|k: int| 0 <= k < quests_of(t, lid).len() implies #[trigger] quests_of(t, lid)[k].id < q0.id by {
            assert(quests_of(t, lid)[k].id < qs[0].id);
        }
        lemma_insert_quests_of(t, q0);
        lemma_upsert_quest_ascending(t, q0);
        lemma_insert_pos(t, q0.id);
        let p = insert_pos(t, q0.id);
        assert forall|a: int, b: int| 0 <= a < b < rest.len() implies #[trigger] rest[a].id < #[trigger] rest[b].id by {
            assert(qs[a + 1].id < qs[b + 1].id);
        }
        assert forall|k: int| 0 <= k < rest.len() implies #[trigger] rest[k].lock_id == lid by {
            assert(qs[k + 1].lock_id == lid);
        }
        assert forall|k: int, j: int| 0 <= k < t1.len() && 0 <= j < rest.len() implies #[trigger] t1[k].id != #[trigger] rest[j].id by {
            assert(rest[j] == qs[j + 1]);
            assert(qs[0].id < qs[j + 1].id);
            if k < p {
                assert(t1[k] == t[k]);
            } else if k > p {
                assert(t1[k] == t[k - 1]);
            }
        }
        let qo1 = quests_of(t1, lid);
        assert forall|k: int, j: int| 0 <= k < qo1.len() && 0 <= j < rest.len() implies #[trigger] qo1[k].id < #[trigger] rest[j].id by {
            assert(rest[j] == qs[j + 1]);
            assert(qs[0].id < qs[j + 1].id);
            if k < quests_of(t, lid).len() {
                assert(qo1[k] == quests_of(t, lid)[k]);
                assert(quests_of(t, lid)[k].id < qs[0].id);
            }
        }
        lemma_upsert_fresh_quests(t1, rest, lid);
        assert(quests_of(t, lid).push(q0) + rest =~= quests_of(t, lid) + qs);
    }
}

/// Saving an aggregate that the store does not hold yet and reading it back by
/// its identifier gives the same aggregate, field for field, with its quests in
/// ascending identifier order.
pub proof fn lemma_save_then_load_round_trip(m: StoreView, l: LockView)
    requires
        m.wf(),
        l.wf(),
        lock_pos(m.locks, l.id) < 0,
        forall|k: int| 0 <= k < m.quests.len() ==> #[trigger] m.quests[k].lock_id != l.id,
        forall|k: int, j: int|
            0 <= k < m.quests.len() && 0 <= j < l.quests.len() ==> #[trigger] m.quests[k].id != #[trigger] l.quests[j].id,
    ensures
        load_spec(save_spec(m, l), l.id) == Some(l),
{
    let s = save_spec(m, l);
    lemma_lock_pos(m.locks, l.id);
    lemma_lock_insert_pos(m.locks, l.id);
    let ip = lock_insert_pos(m.locks, l.id);
    assert(s.locks == m.locks.insert(ip, model_of(l)));
    lemma_upsert_lock_ascending(m.locks, l);
    assert(s.locks[ip] == model_of(l));
    lemma_lock_ascending_unique(s.locks, ip);
    lemma_quests_of_none(m.quests, l.id);
    lemma_upsert_fresh_quests(m.quests, l.quests, l.id);
    assert(quests_of(s.quests, l.id) =~= l.quests);
    assert((l.total_shares as i16) as u8 == l.total_shares);
    assert((l.threshold as i16) as u8 == l.threshold);
}

proof fn lemma_ascending_unique(t: Seq<QuestView>, k: int)
    requires
        ids_ascending(t),
        0 <= k < t.len(),
    ensures
        quest_pos(t, t[k].id) == k,
{
    lemma_quest_pos(t, t[k].id);
    let p = quest_pos(t, t[k].id);
    if p != k {
        if p < k {
            assert(t[p].id < t[k].id);
        } else {
            assert(t[k].id < t[p].id);
        }
    }
}

proof fn lemma_upsert_keeps_other(t: Seq<QuestView>, q: QuestView, e: QuestView) -> (k2: int)
    requires
        ids_ascending(t),
        t.contains(e),
        q.id != e.id,
    ensures
        0 <= k2 < upsert_quest(t, q).len(),
        upsert_quest(t, q)[k2] == e,
{
    let k = choose|k: int| 0 <= k < t.len() && t[k] == e;
    lemma_quest_pos(t, q.id);
    let p = quest_pos(t, q.id);
    if p >= 0 {
        assert(p != k);
        k
    } else {
        lemma_insert_pos(t, q.id);
        let ip = insert_pos(t, q.id);
        if k < ip {
            k
        } else {
            assert(t.insert(ip, q)[k + 1] == t[k]);
            k + 1
        }
    }
}

proof fn lemma_upsert_all_keeps(t: Seq<QuestView>, qs: Seq<QuestView>, e: QuestView)
    requires
        ids_ascending(t),
        t.contains(e),
        forall|j: int| 0 <= j < qs.len() ==> #[trigger] qs[j].id != e.id,
    ensures
        upsert_quests(t, qs).contains(e),
    decreases qs.len(),
{
    if qs.len() > 0 {
        let k2 = lemma_upsert_keeps_other(t, qs[0], e);
        lemma_upsert_quest_ascending(t, qs[0]);
        let t1 = upsert_quest(t, qs[0]);
        assert(t1.contains(e)) by {
            assert(t1[k2] == e);
        }
        assert forall|j: int| 0 <= j < qs.drop_first().len() implies #[trigger] qs.drop_first()[j].id != e.id by {
            assert(qs.drop_first()[j] == qs[j + 1]);
        }
        lemma_upsert_all_keeps(t1, qs.drop_first(), e);
    }
}

proof fn lemma_upsert_all_updates(t: Seq<QuestView>, qs: Seq<QuestView>, e: QuestView, j: int)
    requires
        ids_ascending(t),
        ids_distinct(qs),
        t.contains(e),
        0 <= j < qs.len(),
        qs[j].id == e.id,
    ensures
        upsert_quests(t, qs).contains(QuestView { status: qs[j].status, ..e }),
    decreases qs.len(),
{
    let q0 = qs[0];
    let rest = qs.drop_first();
    lemma_upsert_quest_ascending(t, q0);
    let t1 = upsert_quest(t, q0);
    assert forall|a: int, b: int| 0 <= a < b < rest.len() implies #[trigger] rest[a].id != #[trigger] rest[b].id by {
        assert(qs[a + 1].id != qs[b + 1].id);
    }
    if j == 0 {
        let k = choose|k: int| 0 <= k < t.len() && t[k] == e;
        lemma_ascending_unique(t, k);
        let e2 = QuestView { status: qs[0].status, ..e };
        assert(t1[k] == e2);
        assert(t1.contains(e2));
        assert forall|i: int| 0 <= i < rest.len() implies #[trigger] rest[i].id != e2.id by {
            assert(qs[0].id != qs[i + 1].id);
        }
        lemma_upsert_all_keeps(t1, rest, e2);
    } else {
        assert(q0.id != e.id) by {
            assert(qs[0].id != qs[j].id);
        }
        let k2 = lemma_upsert_keeps_other(t, q0, e);
        assert(t1.contains(e)) by {
            assert(t1[k2] == e);
        }
        assert(rest[j - 1] == qs[j]);
        lemma_upsert_all_updates(t1, rest, e, j - 1);
    }
}

/// Saving an aggregate whose quest is already stored changes only that quest's
/// status: its share, type and metadata stay as first written.
pub proof fn lemma_save_keeps_quest_fields(m: StoreView, l: LockView, j: int)
    requires
        m.wf(),
        ids_distinct(l.quests),
        0 <= j < l.quests.len(),
        quest_pos(m.quests, l.quests[j].id) >= 0,
    ensures
        ({
            let before = m.quests[quest_pos(m.quests, l.quests[j].id)];
            let after = save_spec(m, l).quests;
            &&& ids_ascending(after)
            &&& quest_pos(after, l.quests[j].id) >= 0
            &&& after[quest_pos(after, l.quests[j].id)] == QuestView { status: l.quests[j].status, ..before }
        }),
{
    let x = l.quests[j].id;
    lemma_quest_pos(m.quests, x);
    let e = m.quests[quest_pos(m.quests, x)];
    assert(m.quests.contains(e));
    lemma_upsert_all_updates(m.quests, l.quests, e, j);
    let after = save_spec(m, l).quests;
    lemma_upsert_all_ascending(m.quests, l.quests);
    let e2 = QuestView { status: l.quests[j].status, ..e };
    let k = choose|k: int| 0 <= k < after.len() && after[k] == e2;
    lemma_ascending_unique(after, k);
}

proof fn lemma_upsert_all_ascending(t: Seq<QuestView>, qs: Seq<QuestView>)
    requires
        ids_ascending(t),
    ensures
        ids_ascending(upsert_quests(t, qs)),
    decreases qs.len(),
{
    if qs.len() > 0 {
        lemma_upsert_quest_ascending(t, qs[0]);
        lemma_upsert_all_ascending(upsert_quest(t, qs[0]), qs.drop_first());
    }
}

proof fn lemma_quests_of_contains(t: Seq<QuestView>, k: int)
    requires
        0 <= k < t.len(),
    ensures
        quests_of(t, t[k].lock_id).contains(t[k]),
    decreases t.len(),
{
    let lid = t[k].lock_id;
    if k == t.len() - 1 {
        let qo = quests_of(t, lid);
        assert(qo[qo.len() - 1] == t[k]);
    } else {
        assert(t.drop_last()[k] == t[k]);
        lemma_quests_of_contains(t.drop_last(), k);
        let qo0 = quests_of(t.drop_last(), lid);
        let i = choose|i: int| 0 <= i < qo0.len() && qo0[i] == t[k];
        if t.last().lock_id == lid {
            assert(quests_of(t, lid)[i] == t[k]);
        }
    }
}

/// Two plans made from the same snapshot of a lock and appended one after the
/// other both persist; only when they carry the same identifier does the
/// second fail, explicitly.
pub proof fn lemma_concurrent_appends_keep_both(m: StoreView, q1: QuestView, q2: QuestView)
    requires
        m.wf(),
        lock_pos(m.locks, q1.lock_id) >= 0,
        q2.lock_id == q1.lock_id,
        quest_pos(m.quests, q1.id) < 0,
        quest_pos(m.quests, q2.id) < 0,
    ensures
        append_spec(m, q1) is Ok,
        q1.id == q2.id ==> append_spec(append_spec(m, q1).unwrap(), q2) == Err::<StoreView, StoreError>(
            StoreError::QuestExists,
        ),
        q1.id != q2.id ==> ({
            let m2 = append_spec(append_spec(m, q1).unwrap(), q2);
            &&& m2 is Ok
            &&& load_spec(m2.unwrap(), q1.lock_id) is Some
            &&& load_spec(m2.unwrap(), q1.lock_id).unwrap().quests.contains(q1)
            &&& load_spec(m2.unwrap(), q1.lock_id).unwrap().quests.contains(q2)
        }),
{
    let m1 = append_spec(m, q1).unwrap();
    lemma_quest_pos(m.quests, q1.id);
    lemma_insert_pos(m.quests, q1.id);
    let pos1 = insert_pos(m.quests, q1.id);
    assert(m1.quests[pos1] == q1);
    lemma_quest_pos(m1.quests, q2.id);
    if q1.id == q2.id {
        lemma_quest_pos(m1.quests, q1.id);
    } else {
        lemma_quest_pos(m.quests, q2.id);
        assert forall|k: int| 0 <= k < m1.quests.len() implies #[trigger] m1.quests[k].id != q2.id by {
            if k < pos1 {
                assert(m1.quests[k] == m.quests[k]);
            } else if k > pos1 {
                assert(m1.quests[k] == m.quests[k - 1]);
            }
        }
        assert(quest_pos(m1.quests, q2.id) < 0);
        lemma_upsert_quest_ascending(m.quests, q1);
        assert(m1.quests == upsert_quest(m.quests, q1));
        let m2 = append_spec(m1, q2).unwrap();
        lemma_insert_pos(m1.quests, q2.id);
        let pos2 = insert_pos(m1.quests, q2.id);
        let k1 = if pos1 < pos2 { pos1 } else { pos1 + 1 };
        assert(m2.quests[k1] == q1);
        assert(m2.quests[pos2] == q2);
        lemma_quests_of_contains(m2.quests, k1);
        lemma_quests_of_contains(m2.quests, pos2);
        lemma_lock_pos(m.locks, q1.lock_id);
    }
}

/// An owner without lock rows has no locks to read.
pub proof fn lemma_owner_without_rows(locks: Seq<LockModelView>, quests: Seq<QuestView>, user_id: Seq<char>)
    requires
        forall|k: int| 0 <= k < locks.len() ==> #[trigger] locks[k].user_id != user_id,
    ensures
        owner_locks(locks, quests, user_id) == Seq::<LockView>::empty(),
    decreases locks.len(),
{
    if locks.len() > 0 {
        assert(locks.last() == locks[locks.len() - 1]);
        assert forall|k: int| 0 <= k < locks.len() - 1 implies #[trigger] locks.drop_last()[k].user_id != user_id by {
            assert(locks.drop_last()[k] == locks[k]);
        }
        lemma_owner_without_rows(locks.drop_last(), quests, user_id);
    }
}

proof fn lemma_owner_locks_below(locks: Seq<LockModelView>, quests: Seq<QuestView>, user_id: Seq<char>, b: u128)
    requires
        forall|i: int| 0 <= i < locks.len() ==> #[trigger] locks[i].id < b,
    ensures
        forall|k: int| 0 <= k < owner_locks(locks, quests, user_id).len() ==> #[trigger] owner_locks(locks, quests, user_id)[k].id < b,
    decreases locks.len(),
{
    if locks.len() > 0 {
        assert(locks.last() == locks[locks.len() - 1]);
        assert forall|i: int| 0 <= i < locks.len() - 1 implies #[trigger] locks.drop_last()[i].id < b by {
            assert(locks.drop_last()[i] == locks[i]);
        }
        lemma_owner_locks_below(locks.drop_last(), quests, user_id, b);
    }
}

/// An owner's locks come out in ascending lock identifier order.
pub proof fn lemma_owner_locks_ascending(locks: Seq<LockModelView>, quests: Seq<QuestView>, user_id: Seq<char>)
    requires
        lock_ids_ascending(locks),
    ensures
        forall|a: int, b: int|
            0 <= a < b < owner_locks(locks, quests, user_id).len() ==> #[trigger] owner_locks(locks, quests, user_id)[a].id
                < #[trigger] owner_locks(locks, quests, user_id)[b].id,
    decreases locks.len(),
{
    if locks.len() > 0 {
        let pre = locks.drop_last();
        assert(locks.last() == locks[locks.len() - 1]);
        assert forall|a: int, b: int| 0 <= a < b < pre.len() implies #[trigger] pre[a].id < #[trigger] pre[b].id by {
            assert(locks[a].id < locks[b].id);
        }
        lemma_owner_locks_ascending(pre, quests, user_id);
        assert forall|i: int| 0 <= i < pre.len() implies #[trigger] pre[i].id < locks.last().id by {
            assert(locks[i].id < locks[locks.len() - 1].id);
        }
        lemma_owner_locks_below(pre, quests, user_id, locks.last().id);
    }
}

proof fn lemma_owner_locks_contains(locks: Seq<LockModelView>, quests: Seq<QuestView>, user_id: Seq<char>, k: int)
    requires
        0 <= k < locks.len(),
        locks[k].user_id == user_id,
    ensures
        owner_locks(locks, quests, user_id).contains(assemble(locks[k], quests)),
    decreases locks.len(),
{
    if k == locks.len() - 1 {
        let ol = owner_locks(locks, quests, user_id);
        assert(ol[ol.len() - 1] == assemble(locks[k], quests));
    } else {
        assert(locks.drop_last()[k] == locks[k]);
        lemma_owner_locks_contains(locks.drop_last(), quests, user_id, k);
        let ol0 = owner_locks(locks.drop_last(), quests, user_id);
        let i = choose|i: int| 0 <= i < ol0.len() && ol0[i] == assemble(locks[k], quests);
        if locks.last().user_id == user_id {
            assert(owner_locks(locks, quests, user_id)[i] == ol0[i]);
        }
    }
}

/// A lock of an owner that no quest row points at is listed for that owner
/// exactly once, with an empty quest list.
pub proof fn lemma_questless_lock_listed_once(m: StoreView, user_id: Seq<char>, k: int)
    requires
        m.wf(),
        0 <= k < m.locks.len(),
        m.locks[k].user_id == user_id,
        forall|j: int| 0 <= j < m.quests.len() ==> #[trigger] m.quests[j].lock_id != m.locks[k].id,
    ensures
        ({
            let ol = owner_locks(m.locks, m.quests, user_id);
            exists|i: int|
                0 <= i < ol.len() && #[trigger] ol[i].id == m.locks[k].id && ol[i].quests.len() == 0
                    && forall|n: int| 0 <= n < ol.len() && #[trigger] ol[n].id == m.locks[k].id ==> n == i
        }),
{
    let ol = owner_locks(m.locks, m.quests, user_id);
    lemma_owner_locks_contains(m.locks, m.quests, user_id, k);
    lemma_owner_locks_ascending(m.locks, m.quests, user_id);
    lemma_quests_of_none(m.quests, m.locks[k].id);
    let i = choose|i: int| 0 <= i < ol.len() && ol[i] == assemble(m.locks[k], m.quests);
    assert(ol[i].id == m.locks[k].id);
    assert forall|n: int| 0 <= n < ol.len() && #[trigger] ol[n].id == m.locks[k].id implies n == i by {
        if n < i {
            assert(ol[n].id < ol[i].id);
        } else if n > i {
            assert(ol[i].id < ol[n].id);
        }
    }
}

pub proof fn lemma_insert_contains(t: Seq<QuestView>, i: int, q: QuestView)
    requires
        0 <= i <= t.len(),
    ensures
        forall|x: QuestView| #[trigger] t.insert(i, q).contains(x) <==> (t.contains(x) || x == q),
{
    let r = t.insert(i, q);
    assert forall|x: QuestView| #[trigger] r.contains(x) <==> (t.contains(x) || x == q) by {
        if r.contains(x) {
            let k = choose|k: int| 0 <= k < r.len() && r[k] == x;
            if k < i {
                assert(t[k] == x);
            } else if k > i {
                assert(t[k - 1] == x);
            }
        }
        if t.contains(x) {
            let k = choose|k: int| 0 <= k < t.len() && t[k] == x;
            if k < i {
                assert(r[k] == x);
            } else {
                assert(r[k + 1] == x);
            }
        }
        if x == q {
            assert(r[i] == x);
        }
    }
}

proof fn lemma_upsert_fresh_contents(t: Seq<QuestView>, qs: Seq<QuestView>)
    requires
        ids_ascending(t),
        ids_distinct(qs),
        forall|k: int, j: int| 0 <= k < t.len() && 0 <= j < qs.len() ==> #[trigger] t[k].id != #[trigger] qs[j].id,
    ensures
        forall|x: QuestView| #[trigger] upsert_quests(t, qs).contains(x) <==> (t.contains(x) || qs.contains(x)),
    decreases qs.len(),
{
    if qs.len() > 0 {
        let q0 = qs[0];
        let rest = qs.drop_first();
        lemma_quest_pos(t, q0.id);
        assert forall|k: int| 0 <= k < t.len() implies #[trigger] t[k].id != q0.id by {
            assert(t[k].id != qs[0].id);
        }
        lemma_insert_pos(t, q0.id);
        let p = insert_pos(t, q0.id);
        let t1 = upsert_quest(t, q0);
        assert(t1 == t.insert(p, q0));
        lemma_insert_contains(t, p, q0);
        lemma_upsert_quest_ascending(t, q0);
        assert forall|a: int, b: int| 0 <= a < b < rest.len() implies #[trigger] rest[a].id != #[trigger] rest[b].id by {
            assert(qs[a + 1].id != qs[b + 1].id);
        }
        assert forall|k: int, j: int| 0 <= k < t1.len() && 0 <= j < rest.len() implies #[trigger] t1[k].id != #[trigger] rest[j].id by {
            assert(rest[j] == qs[j + 1]);
            assert(qs[0].id != qs[j + 1].id);
            if k < p {
                assert(t1[k] == t[k]);
            } else if k > p {
                assert(t1[k] == t[k - 1]);
            }
        }
        lemma_upsert_fresh_contents(t1, rest);
        assert forall|x: QuestView| #[trigger] qs.contains(x) <==> (x == q0 || rest.contains(x)) by {
            if qs.contains(x) && x != q0 {
                let k = choose|k: int| 0 <= k < qs.len() && qs[k] == x;
                assert(rest[k - 1] == x);
            }
            if rest.contains(x) {
                let k = choose|k: int| 0 <= k < rest.len() && rest[k] == x;
                assert(qs[k + 1] == x);
            }
            if x == q0 {
                assert(qs[0] == x);
            }
        }
        assert(upsert_quests(t, qs) == upsert_quests(t1, rest));
        assert forall|x: QuestView| #[trigger] upsert_quests(t, qs).contains(x) <==> (t.contains(x) || qs.contains(x)) by {
            assert(upsert_quests(t1, rest).contains(x) <==> (t1.contains(x) || rest.contains(x)));
            assert(t1.contains(x) <==> (t.contains(x) || x == q0));
            assert(qs.contains(x) <==> (x == q0 || rest.contains(x)));
        }
    }
}

pub proof fn lemma_quests_of_contents(t: Seq<QuestView>, lid: u128)
    ensures
        forall|x: QuestView| #[trigger] quests_of(t, lid).contains(x) <==> (t.contains(x) && x.lock_id == lid),
    decreases t.len(),
{
    if t.len() > 0 {
        let pre = t.drop_last();
        lemma_quests_of_contents(pre, lid);
        assert(t.last() == t[t.len() - 1]);
        assert forall|x: QuestView| #[trigger] quests_of(t, lid).contains(x) <==> (t.contains(x) && x.lock_id == lid) by {
            let qo = quests_of(t, lid);
            let qp = quests_of(pre, lid);
            if qo.contains(x) {
                let k = choose|k: int| 0 <= k < qo.len() && qo[k] == x;
                if t.last().lock_id == lid && k == qo.len() - 1 {
                    assert(t[t.len() - 1] == x);
                } else {
                    assert(qp[k] == x);
                    assert(qp.contains(x));
                    assert(pre.contains(x));
                    let i = choose|i: int| 0 <= i < pre.len() && pre[i] == x;
                    assert(t[i] == x);
                }
            }
            if t.contains(x) && x.lock_id == lid {
                let i = choose|i: int| 0 <= i < t.len() && t[i] == x;
                if i == t.len() - 1 {
                    assert(qo[qo.len() - 1] == x);
                } else {
                    assert(pre[i] == x);
                    assert(pre.contains(x));
                    assert(qp.contains(x));
                    let k = choose|k: int| 0 <= k < qp.len() && qp[k] == x;
                    assert(qo[k] == x);
                }
            }
        }
    }
}

proof fn lemma_quests_of_ascending(t: Seq<QuestView>, lid: u128)
    requires
        ids_ascending(t),
    ensures
        ids_ascending(quests_of(t, lid)),
    decreases t.len(),
{
    if t.len() > 0 {
        let pre = t.drop_last();
        lemma_ascending_prefix(t);
        lemma_quests_of_ascending(pre, lid);
        lemma_quests_of_contents(pre, lid);
        let qp = quests_of(pre, lid);
        let qo = quests_of(t, lid);
        if t.last().lock_id == lid {
            assert forall|a: int, b: int| 0 <= a < b < qo.len() implies #[trigger] qo[a].id < #[trigger] qo[b].id by {
                if b == qo.len() - 1 {
                    assert(qp.contains(qp[a]));
                    let i = choose|i: int| 0 <= i < pre.len() && pre[i] == qp[a];
                    assert(t[i].id < t[t.len() - 1].id);
                } else {
                    assert(qp[a].id < qp[b].id);
                }
            }
        }
    }
}

/// Saving an aggregate that the store does not hold yet, whose quests have
/// distinct identifiers in any order, and reading it back by its identifier
/// gives the same lock fields and the same quests, now in ascending
/// identifier order.
pub proof fn lemma_save_then_load_any_order(m: StoreView, l: LockView)
    requires
        m.wf(),
        ids_distinct(l.quests),
        crate::lock::all_in_lock(l.quests, l.id),
        lock_pos(m.locks, l.id) < 0,
        forall|k: int| 0 <= k < m.quests.len() ==> #[trigger] m.quests[k].lock_id != l.id,
        forall|k: int, j: int|
            0 <= k < m.quests.len() && 0 <= j < l.quests.len() ==> #[trigger] m.quests[k].id != #[trigger] l.quests[j].id,
    ensures
        ({
            let r = load_spec(save_spec(m, l), l.id);
            &&& r is Some
            &&& r.unwrap() == LockView { quests: r.unwrap().quests, ..l }
            &&& ids_ascending(r.unwrap().quests)
            &&& r.unwrap().quests.len() == l.quests.len()
            &&& forall|x: QuestView| #[trigger] r.unwrap().quests.contains(x) <==> l.quests.contains(x)
        }),
{
    let s = save_spec(m, l);
    lemma_lock_pos(m.locks, l.id);
    lemma_lock_insert_pos(m.locks, l.id);
    let ip = lock_insert_pos(m.locks, l.id);
    assert(s.locks == m.locks.insert(ip, model_of(l)));
    lemma_upsert_lock_ascending(m.locks, l);
    assert(s.locks[ip] == model_of(l));
    lemma_lock_ascending_unique(s.locks, ip);
    assert((l.total_shares as i16) as u8 == l.total_shares);
    assert((l.threshold as i16) as u8 == l.threshold);
    lemma_upsert_fresh_contents(m.quests, l.quests);
    lemma_upsert_all_ascending(m.quests, l.quests);
    lemma_quests_of_ascending(s.quests, l.id);
    lemma_quests_of_contents(s.quests, l.id);
    let rq = quests_of(s.quests, l.id);
    assert forall|x: QuestView| #[trigger] rq.contains(x) <==> l.quests.contains(x) by {
        if m.quests.contains(x) {
            let k = choose|k: int| 0 <= k < m.quests.len() && m.quests[k] == x;
            assert(m.quests[k].lock_id != l.id);
        }
        if l.quests.contains(x) {
            let j = choose|j: int| 0 <= j < l.quests.len() && l.quests[j] == x;
            assert(l.quests[j].lock_id == l.id);
        }
    }
    assert(rq.no_duplicates()) by {
        assert forall|a: int, b: int| 0 <= a < rq.len() && 0 <= b < rq.len() && a != b implies rq[a] != rq[b] by {
            if a < b {
                assert(rq[a].id < rq[b].id);
            } else {
                assert(rq[b].id < rq[a].id);
            }
        }
    }
    assert(l.quests.no_duplicates()) by {
        assert forall|a: int, b: int| 0 <= a < l.quests.len() && 0 <= b < l.quests.len() && a != b implies l.quests[a] != l.quests[b] by {
            if a < b {
                assert(l.quests[a].id != l.quests[b].id);
            } else {
                assert(l.quests[b].id != l.quests[a].id);
            }
        }
    }
    assert(rq.to_set() =~= l.quests.to_set());
    rq.unique_seq_to_set();
    l.quests.unique_seq_to_set();
}

} // verus!
