//! Reconstruction of every lock of an owner from one left-join read: one row
//! per (lock, quest) pair, and one row with empty quest columns for a lock
//! without quests.
use vstd::prelude::*;

use crate::errors::InfrastructureError;
use crate::lock::{opt_text, Lock, LockView};
use crate::models::{
    lock_from_rows, quest_models_view, LockModel, LockModelView, LockWithQuests,
    LockWithQuestsView, QuestModel, QuestModelView,
};

verus! {

/// One row of the owner-scoped join of locks and quests.
#[derive(Debug)]
pub struct FlatLockQuestRow {
    pub lock_id: u128,
    pub lock_user_id: String,
    pub lock_label: Option<String>,
    pub lock_total_shares: i16,
    pub lock_threshold: i16,
    pub quest_id: Option<u128>,
    pub quest_share: Option<String>,
    pub quest_type: Option<String>,
    pub quest_status: Option<String>,
    pub quest_data: Option<String>,
}

/// The value of a join row.
pub struct FlatRowView {
    pub lock_id: u128,
    pub lock_user_id: Seq<char>,
    pub lock_label: Option<Seq<char>>,
    pub lock_total_shares: i16,
    pub lock_threshold: i16,
    pub quest_id: Option<u128>,
    pub quest_share: Option<Seq<char>>,
    pub quest_type: Option<Seq<char>>,
    pub quest_status: Option<Seq<char>>,
    pub quest_data: Option<Seq<char>>,
}

impl View for FlatLockQuestRow {
    type V = FlatRowView;

    open spec fn view(&self) -> FlatRowView {
        FlatRowView {
            lock_id: self.lock_id,
            lock_user_id: self.lock_user_id@,
            lock_label: opt_text(self.lock_label),
            lock_total_shares: self.lock_total_shares,
            lock_threshold: self.lock_threshold,
            quest_id: self.quest_id,
            quest_share: opt_text(self.quest_share),
            quest_type: opt_text(self.quest_type),
            quest_status: opt_text(self.quest_status),
            quest_data: opt_text(self.quest_data),
        }
    }
}

/// The values of a sequence of join rows.
pub open spec fn rows_view(rows: Seq<FlatLockQuestRow>) -> Seq<FlatRowView> {
    rows.map_values(|r: FlatLockQuestRow| r@)
}

/// The values of a sequence of grouped rows.
pub open spec fn groups_view(gs: Seq<LockWithQuests>) -> Seq<LockWithQuestsView> {
    gs.map_values(|g: LockWithQuests| g@)
}

/// The lock columns of a join row.
pub open spec fn row_lock(r: FlatRowView) -> LockModelView {
    LockModelView {
        id: r.lock_id,
        user_id: r.lock_user_id,
        label: r.lock_label,
        total_shares: r.lock_total_shares,
        threshold: r.lock_threshold,
    }
}

/// The quest columns of a join row: no quest when the quest identifier is
/// absent (the other quest columns are then ignored), a quest row when every
/// column is present, and nothing (a malformed row) otherwise.
pub open spec fn row_quest(r: FlatRowView) -> Option<Seq<QuestModelView>> {
    match r.quest_id {
        None => Some(Seq::empty()),
        Some(qid) => match (r.quest_share, r.quest_type, r.quest_status, r.quest_data) {
            (Some(share), Some(t), Some(s), Some(d)) => Some(
                seq![
                    QuestModelView {
                        id: qid,
                        lock_id: r.lock_id,
                        share,
                        quest_type: t,
                        status: s,
                        data: d,
                    },
                ],
            ),
            _ => None,
        },
    }
}

/// Position of the group of a lock, or -1 when there is none.
pub open spec fn group_index(gs: Seq<LockWithQuestsView>, id: u128) -> int
    decreases gs.len(),
{
    if gs.len() == 0 {
        -1
    } else if gs.last().lock.id == id {
        gs.len() - 1
    } else {
        group_index(gs.drop_last(), id)
    }
}

/// Groups join rows by lock in the order in which each lock is first seen;
/// each group keeps its quest rows in row order. Nothing when a row is malformed.
pub open spec fn group_rows(rows: Seq<FlatRowView>) -> Option<Seq<LockWithQuestsView>>
    decreases rows.len(),
{
    if rows.len() == 0 {
        Some(Seq::empty())
    } else {
        match (group_rows(rows.drop_last()), row_quest(rows.last())) {
            (Some(gs), Some(extra)) => {
                let k = group_index(gs, rows.last().lock_id);
                if k < 0 {
                    Some(gs.push(LockWithQuestsView { lock: row_lock(rows.last()), quests: extra }))
                } else {
                    Some(
                        gs.update(
                            k,
                            LockWithQuestsView { lock: gs[k].lock, quests: gs[k].quests + extra },
                        ),
                    )
                }
            },
            _ => None,
        }
    }
}

/// Every group rebuilt into an aggregate, or nothing when one fails.
pub open spec fn locks_from_groups(gs: Seq<LockWithQuestsView>) -> Option<Seq<LockView>>
    decreases gs.len(),
{
    if gs.len() == 0 {
        Some(Seq::empty())
    } else {
        match (locks_from_groups(gs.drop_last()), lock_from_rows(gs.last().lock, gs.last().quests)) {
            (Some(a), Some(l)) => Some(a.push(l)),
            _ => None,
        }
    }
}

/// The aggregates that a join read describes, or nothing when a row is malformed.
pub open spec fn locks_from_join(rows: Seq<FlatRowView>) -> Option<Seq<LockView>> {
    match group_rows(rows) {
        Some(gs) => locks_from_groups(gs),
        None => None,
    }
}

/// The values of a sequence of locks.
pub open spec fn locks_view(ls: Seq<Lock>) -> Seq<LockView> {
    ls.map_values(|l: Lock| l@)
}

/// Finds the group of a lock, scanning from the most recent.
fn find_group(groups: &Vec<LockWithQuests>, id: u128) -> (r: Option<usize>)
    ensures
        match r {
            Some(k) => k < groups.len() && group_index(groups_view(groups@), id) == k,
            None => group_index(groups_view(groups@), id) == -1,
        },
{
    let ghost gs = groups_view(groups@);
    let mut k: usize = groups.len();
    assert(gs.subrange(0, k as int) =~= gs);
    while k > 0
        invariant
            k <= groups.len(),
            gs == groups_view(groups@),
            group_index(gs, id) == group_index(gs.subrange(0, k as int), id),
        decreases k,
    {
        let ghost sub = gs.subrange(0, k as int);
        assert(sub.drop_last() =~= gs.subrange(0, k - 1));
        if groups[k - 1].lock.id == id {
            return Some(k - 1);
        }
        k = k - 1;
    }
    assert(gs.subrange(0, 0) =~= Seq::<LockWithQuestsView>::empty());
    None
}

/// The quest row that a join row carries, if its columns are complete.
fn row_quest_model(row: &FlatLockQuestRow) -> (r: Result<Option<QuestModel>, InfrastructureError>)
    ensures
        match r {
            Ok(None) => row_quest(row@) == Some(Seq::<QuestModelView>::empty()),
            Ok(Some(q)) => row_quest(row@) == Some(seq![q@]),
            Err(_) => row_quest(row@) is None,
        },
{
    match row.quest_id {
        None => Ok(None),
        Some(qid) => match (&row.quest_share, &row.quest_type, &row.quest_status, &row.quest_data) {
            (Some(share), Some(quest_type), Some(status), Some(data)) => Ok(
                Some(
                    QuestModel {
                        id: qid,
                        lock_id: row.lock_id,
                        share: share.clone(),
                        quest_type: quest_type.clone(),
                        status: status.clone(),
                        data: data.clone(),
                    },
                ),
            ),
            _ => Err(
                InfrastructureError::DatabaseRowToDomainConversionError(
                    String::from_str("incomplete quest columns in a joined row"),
                ),
            ),
        },
    }
}

/// The lock columns of a join row, as a lock row.
fn row_lock_model(row: &FlatLockQuestRow) -> (r: LockModel)
    ensures
        r@ == row_lock(row@),
{
    LockModel {
        id: row.lock_id,
        user_id: row.lock_user_id.clone(),
        label: crate::lock::clone_opt_text(&row.lock_label),
        total_shares: row.lock_total_shares,
        threshold: row.lock_threshold,
    }
}

/// Once a prefix of the rows fails to group, every longer prefix fails too.
proof fn lemma_group_fails_extends(rows: Seq<FlatRowView>, n: int)
    requires
        0 <= n <= rows.len(),
        group_rows(rows.subrange(0, n)) is None,
    ensures
        group_rows(rows) is None,
    decreases rows.len() - n,
{
    if n < rows.len() {
        assert(rows.subrange(0, n + 1).drop_last() =~= rows.subrange(0, n));
        lemma_group_fails_extends(rows, n + 1);
    } else {
        assert(rows.subrange(0, n) =~= rows);
    }
}

/// Groups join rows by lock, in the order in which each lock is first seen.
/// A row without a quest identifier adds no quest; one with an identifier but
/// missing quest columns fails the call.
pub fn group_join_rows(rows: Vec<FlatLockQuestRow>) -> (r: Result<Vec<LockWithQuests>, InfrastructureError>)
    ensures
        match r {
            Ok(gs) => group_rows(rows_view(rows@)) == Some(groups_view(gs@)),
            Err(_) => group_rows(rows_view(rows@)) is None,
        },
{
    let ghost rv = rows_view(rows@);
    let mut groups: Vec<LockWithQuests> = Vec::new();
    let mut i: usize = 0;
    while i < rows.len()
        invariant
            i <= rows.len(),
            rv == rows_view(rows@),
            group_rows(rv.subrange(0, i as int)) == Some(groups_view(groups@)),
        decreases rows.len() - i,
    {
        let ghost prefix = rv.subrange(0, i as int + 1);
        let ghost gs = groups_view(groups@);
        assert(prefix.drop_last() =~= rv.subrange(0, i as int));
        assert(prefix.last() == rows@[i as int]@);
        let row = &rows[i];
        let quest = match row_quest_model(row) {
            Ok(q) => q,
            Err(e) => {
                proof {
                    lemma_group_fails_extends(rv, i as int + 1);
                }
                return Err(e);
            },
        };
        let ghost extra = row_quest(row@).unwrap();
        match find_group(&groups, row.lock_id) {
            None => {
                let mut quests: Vec<QuestModel> = Vec::new();
                match quest {
                    Some(q) => quests.push(q),
                    None => {},
                }
                assert(quest_models_view(quests@) =~= extra);
                groups.push(LockWithQuests { lock: row_lock_model(row), quests });
                assert(groups_view(groups@) =~= gs.push(
                    LockWithQuestsView { lock: row_lock(row@), quests: extra },
                ));
            },
            Some(k) => {
                let mut g = groups.remove(k);
                let ghost before = g@;
                assert(before == gs[k as int]);
                match quest {
                    Some(q) => g.quests.push(q),
                    None => {},
                }
                assert(g@.quests =~= before.quests + extra);
                groups.insert(k, g);
                assert(groups_view(groups@) =~= gs.update(
                    k as int,
                    LockWithQuestsView { lock: gs[k as int].lock, quests: gs[k as int].quests + extra },
                ));
            },
        }
        i = i + 1;
    }
    assert(rv.subrange(0, rows.len() as int) =~= rv);
    Ok(groups)
}

/// Once a prefix of the groups fails to rebuild, every longer prefix fails too.
proof fn lemma_rebuild_fails_extends(gs: Seq<LockWithQuestsView>, n: int)
    requires
        0 <= n <= gs.len(),
        locks_from_groups(gs.subrange(0, n)) is None,
    ensures
        locks_from_groups(gs) is None,
    decreases gs.len() - n,
{
    if n < gs.len() {
        assert(gs.subrange(0, n + 1).drop_last() =~= gs.subrange(0, n));
        lemma_rebuild_fails_extends(gs, n + 1);
    } else {
        assert(gs.subrange(0, n) =~= gs);
    }
}

/// Rebuilds every lock of a join read, in first-seen order; a malformed row
/// fails the whole call.
pub fn locks_from_join_rows(rows: Vec<FlatLockQuestRow>) -> (r: Result<Vec<Lock>, InfrastructureError>)
    ensures
        match r {
            Ok(ls) => locks_from_join(rows_view(rows@)) == Some(locks_view(ls@)),
            Err(_) => locks_from_join(rows_view(rows@)) is None,
        },
{
    let ghost rv = rows_view(rows@);
    let groups = match group_join_rows(rows) {
        Ok(g) => g,
        Err(e) => {
            return Err(e);
        },
    };
    let ghost gs = groups_view(groups@);
    assert(group_rows(rv) == Some(gs));
    let mut locks: Vec<Lock> = Vec::new();
    let mut i: usize = 0;
    while i < groups.len()
        invariant
            i <= groups.len(),
            gs == groups_view(groups@),
            group_rows(rv) == Some(gs),
            rv == rows_view(rows@),
            locks_from_groups(gs.subrange(0, i as int)) == Some(locks_view(locks@)),
        decreases groups.len() - i,
    {
        let ghost prefix = gs.subrange(0, i as int + 1);
        assert(prefix.drop_last() =~= gs.subrange(0, i as int));
        assert(prefix.last() == groups@[i as int]@);
        match groups[i].to_lock() {
            Ok(l) => {
                locks.push(l);
                assert(locks_view(locks@) =~= locks_from_groups(prefix).unwrap());
            },
            Err(e) => {
                proof {
                    lemma_rebuild_fails_extends(gs, i as int + 1);
                }
                assert(locks_from_join(rv) is None);
                return Err(e);
            },
        }
        i = i + 1;
    }
    assert(gs.subrange(0, groups.len() as int) =~= gs);
    Ok(locks)
}

/// The quest rows that the join rows carry for one lock, in row order.
pub open spec fn quests_for(rows: Seq<FlatRowView>, id: u128) -> Seq<QuestModelView>
    decreases rows.len(),
{
    if rows.len() == 0 {
        Seq::empty()
    } else if rows.last().lock_id == id {
        quests_for(rows.drop_last(), id) + row_quest(rows.last()).unwrap()
    } else {
        quests_for(rows.drop_last(), id)
    }
}

/// Some join row belongs to the lock.
pub open spec fn has_row(rows: Seq<FlatRowView>, id: u128) -> bool {
    exists|i: int| 0 <= i < rows.len() && #[trigger] rows[i].lock_id == id
}

proof fn lemma_group_index(gs: Seq<LockWithQuestsView>, id: u128)
    ensures
        -1 <= group_index(gs, id) < gs.len(),
        group_index(gs, id) >= 0 ==> gs[group_index(gs, id)].lock.id == id,
        group_index(gs, id) == -1 ==> forall|k: int| 0 <= k < gs.len() ==> #[trigger] gs[k].lock.id != id,
    decreases gs.len(),
{
    if gs.len() > 0 {
        lemma_group_index(gs.drop_last(), id);
        if gs.last().lock.id != id {
            assert forall|k: int| 0 <= k < gs.len() - 1 implies #[trigger] gs[k].lock.id == gs.drop_last()[k].lock.id by {}
        }
    }
}

proof fn lemma_no_row_no_quests(rows: Seq<FlatRowView>, id: u128)
    requires
        !has_row(rows, id),
    ensures
        quests_for(rows, id) == Seq::<QuestModelView>::empty(),
    decreases rows.len(),
{
    if rows.len() > 0 {
        assert(rows.last() == rows[rows.len() - 1]);
        assert(!has_row(rows.drop_last(), id)) by {
            if has_row(rows.drop_last(), id) {
                let i = choose|i: int| 0 <= i < rows.drop_last().len() && #[trigger] rows.drop_last()[i].lock_id == id;
                assert(rows[i].lock_id == id);
            }
        }
        lemma_no_row_no_quests(rows.drop_last(), id);
    }
}

/// The shape of a grouping: one group per lock that has a row, and each group
/// holds exactly the quest rows of its lock, in row order.
pub proof fn lemma_group_rows_shape(rows: Seq<FlatRowView>)
    requires
        group_rows(rows) is Some,
    ensures
        ({
            let gs = group_rows(rows).unwrap();
            &&& forall|a: int, b: int|
                0 <= a < b < gs.len() ==> #[trigger] gs[a].lock.id != #[trigger] gs[b].lock.id
            &&& forall|k: int| 0 <= k < gs.len() ==> #[trigger] gs[k].quests == quests_for(rows, gs[k].lock.id)
            &&& forall|id: u128| #[trigger] has_row(rows, id) <==> group_index(gs, id) >= 0
        }),
    decreases rows.len(),
{
    if rows.len() > 0 {
        let pre = rows.drop_last();
        let r = rows.last();
        assert(r == rows[rows.len() - 1]);
        lemma_group_rows_shape(pre);
        let gs0 = group_rows(pre).unwrap();
        let gs = group_rows(rows).unwrap();
        let extra = row_quest(r).unwrap();
        let k = group_index(gs0, r.lock_id);
        lemma_group_index(gs0, r.lock_id);
        assert forall|id: u128| #[trigger] has_row(rows, id) <==> (has_row(pre, id) || r.lock_id == id) by {
            if has_row(rows, id) && r.lock_id != id {
                let i = choose|i: int| 0 <= i < rows.len() && #[trigger] rows[i].lock_id == id;
                assert(pre[i].lock_id == id);
            }
            if has_row(pre, id) {
                let i = choose|i: int| 0 <= i < pre.len() && #[trigger] pre[i].lock_id == id;
                assert(rows[i].lock_id == id);
            }
        }
        if k < 0 {
            assert(!has_row(pre, r.lock_id));
            lemma_no_row_no_quests(pre, r.lock_id);
            assert(gs.len() == gs0.len() + 1);
            assert(quests_for(rows, r.lock_id) =~= extra);
            assert forall|kk: int| 0 <= kk < gs.len() implies #[trigger] gs[kk].quests == quests_for(rows, gs[kk].lock.id) by {
                if kk < gs0.len() {
                    assert(gs[kk] == gs0[kk]);
                    assert(quests_for(rows, gs0[kk].lock.id) == quests_for(pre, gs0[kk].lock.id));
                }
            }
            assert forall|id: u128| #[trigger] has_row(rows, id) <==> group_index(gs, id) >= 0 by {
                lemma_group_index(gs, id);
                lemma_group_index(gs0, id);
                if id != r.lock_id {
                    assert(gs.drop_last() =~= gs0);
                }
            }
        } else {
            assert(gs.len() == gs0.len());
            assert forall|kk: int| 0 <= kk < gs.len() implies #[trigger] gs[kk].quests == quests_for(rows, gs[kk].lock.id) by {
                if kk == k {
                    assert(gs[kk].quests == gs0[kk].quests + extra);
                } else {
                    assert(gs[kk] == gs0[kk]);
                    assert(gs0[kk].lock.id != r.lock_id);
                    assert(quests_for(rows, gs0[kk].lock.id) == quests_for(pre, gs0[kk].lock.id));
                }
            }
            assert forall|id: u128| #[trigger] has_row(rows, id) <==> group_index(gs, id) >= 0 by {
                lemma_group_index(gs, id);
                lemma_group_index(gs0, id);
                if group_index(gs, id) >= 0 {
                    let j = group_index(gs, id);
                    assert(gs0[j].lock.id == id);
                }
                if group_index(gs0, id) >= 0 {
                    let j = group_index(gs0, id);
                    assert(gs[j].lock.id == id);
                }
            }
        }
    }
}

proof fn lemma_locks_from_groups(gs: Seq<LockWithQuestsView>)
    requires
        locks_from_groups(gs) is Some,
    ensures
        ({
            let ls = locks_from_groups(gs).unwrap();
            &&& ls.len() == gs.len()
            &&& forall|k: int|
                0 <= k < gs.len() ==> #[trigger] ls[k] == lock_from_rows(gs[k].lock, gs[k].quests).unwrap()
            &&& forall|k: int| 0 <= k < gs.len() ==> lock_from_rows(gs[k].lock, #[trigger] gs[k].quests) is Some
        }),
    decreases gs.len(),
{
    if gs.len() > 0 {
        lemma_locks_from_groups(gs.drop_last());
        let ls = locks_from_groups(gs).unwrap();
        assert forall|k: int| 0 <= k < gs.len() - 1 implies #[trigger] gs[k] == gs.drop_last()[k] by {}
        assert(gs.last() == gs[gs.len() - 1]);
    }
}

proof fn lemma_quests_for_questless(rows: Seq<FlatRowView>, id: u128)
    requires
        forall|j: int| 0 <= j < rows.len() && #[trigger] rows[j].lock_id == id ==> rows[j].quest_id is None,
    ensures
        quests_for(rows, id) == Seq::<QuestModelView>::empty(),
    decreases rows.len(),
{
    if rows.len() > 0 {
        assert(rows.last() == rows[rows.len() - 1]);
        assert forall|j: int| 0 <= j < rows.drop_last().len() && #[trigger] rows.drop_last()[j].lock_id == id implies rows.drop_last()[j].quest_id is None by {
            assert(rows[j] == rows.drop_last()[j]);
        }
        lemma_quests_for_questless(rows.drop_last(), id);
        assert(quests_for(rows, id) =~= Seq::<QuestModelView>::empty());
    }
}

/// A lock whose only join row has no quest identifier comes out of the
/// owner-scoped reconstruction exactly once, with an empty quest list.
pub proof fn lemma_questless_lock_appears_once(rows: Seq<FlatRowView>, i: int)
    requires
        0 <= i < rows.len(),
        rows[i].quest_id is None,
        forall|j: int| 0 <= j < rows.len() && j != i ==> #[trigger] rows[j].lock_id != rows[i].lock_id,
        locks_from_join(rows) is Some,
    ensures
        ({
            let ls = locks_from_join(rows).unwrap();
            exists|k: int|
                0 <= k < ls.len() && #[trigger] ls[k].id == rows[i].lock_id && ls[k].quests.len() == 0
                    && forall|m: int| 0 <= m < ls.len() && #[trigger] ls[m].id == rows[i].lock_id ==> m == k
        }),
{
    let id = rows[i].lock_id;
    let gs = group_rows(rows).unwrap();
    let ls = locks_from_join(rows).unwrap();
    lemma_group_rows_shape(rows);
    lemma_locks_from_groups(gs);
    assert(has_row(rows, id));
    lemma_group_index(gs, id);
    let k = group_index(gs, id);
    lemma_quests_for_questless(rows, id);
    assert(gs[k].quests == Seq::<QuestModelView>::empty());
    assert(ls[k].id == id);
    assert forall|m: int| 0 <= m < ls.len() && #[trigger] ls[m].id == id implies m == k by {
        assert(ls[m] == lock_from_rows(gs[m].lock, gs[m].quests).unwrap());
        if m < k {
            assert(gs[m].lock.id != gs[k].lock.id);
        } else if m > k {
            assert(gs[k].lock.id != gs[m].lock.id);
        }
    }
}

} // verus!
