use vstd::prelude::*;

use crate::ids::new_id;
use crate::quest::{Quest, QuestView};

verus! {

/// An optional text as a value.
pub open spec fn opt_text(o: Option<String>) -> Option<Seq<char>> {
    match o {
        Some(s) => Some(s@),
        None => None,
    }
}

/// Quest identifiers strictly increase along the sequence.
pub open spec fn ids_ascending(qs: Seq<QuestView>) -> bool {
    forall|i: int, j: int| 0 <= i < j < qs.len() ==> #[trigger] qs[i].id < #[trigger] qs[j].id
}

/// Every quest of the sequence points at the given lock.
pub open spec fn all_in_lock(qs: Seq<QuestView>, lock_id: u128) -> bool {
    forall|i: int| 0 <= i < qs.len() ==> #[trigger] qs[i].lock_id == lock_id
}

/// The metadata of every quest of the sequence is a mapping.
pub open spec fn quests_keys_unique(qs: Seq<QuestView>) -> bool {
    forall|i: int| 0 <= i < qs.len() ==> crate::quest::keys_unique(#[trigger] qs[i].data)
}

/// The values of a sequence of quests.
pub open spec fn quests_view(qs: Seq<Quest>) -> Seq<QuestView> {
    qs.map_values(|q: Quest| q@)
}

/// The aggregate root: a lock owned by one caller, with its quests.
#[derive(Debug)]
pub struct Lock {
    pub id: u128,
    pub user_id: String,
    pub label: Option<String>,
    pub total_shares: u8,
    pub threshold: u8,
    pub quests: Vec<Quest>,
}

/// The value of a lock.
pub struct LockView {
    pub id: u128,
    pub user_id: Seq<char>,
    pub label: Option<Seq<char>>,
    pub total_shares: u8,
    pub threshold: u8,
    pub quests: Seq<QuestView>,
}

impl LockView {
    /// The aggregate's invariant: quests in ascending identifier order, each
    /// pointing at this lock.
    pub open spec fn wf(self) -> bool {
        ids_ascending(self.quests) && all_in_lock(self.quests, self.id)
    }
}

impl View for Lock {
    type V = LockView;

    open spec fn view(&self) -> LockView {
        LockView {
            id: self.id,
            user_id: self.user_id@,
            label: opt_text(self.label),
            total_shares: self.total_shares,
            threshold: self.threshold,
            quests: quests_view(self.quests@),
        }
    }
}

/// Copies an optional text.
pub fn clone_opt_text(o: &Option<String>) -> (r: Option<String>)
    ensures
        r == *o,
{
    match o {
        Some(s) => Some(s.clone()),
        None => None,
    }
}

/// Copies a sequence of quests.
pub fn clone_quests(qs: &Vec<Quest>) -> (r: Vec<Quest>)
    ensures
        quests_view(r@) == quests_view(qs@),
{
    let mut r: Vec<Quest> = Vec::new();
    let mut i: usize = 0;
    while i < qs.len()
        invariant
            i <= qs.len(),
            r@.len() == i,
            forall|k: int| 0 <= k < i ==> #[trigger] r@[k]@ == qs@[k]@,
        decreases qs.len() - i,
    {
        let q = qs[i].clone();
        r.push(q);
        i = i + 1;
    }
    assert(quests_view(r@) =~= quests_view(qs@));
    r
}

impl Clone for Lock {
    fn clone(&self) -> (r: Self)
        ensures
            r@ == self@,
    {
        Lock {
            id: self.id,
            user_id: self.user_id.clone(),
            label: clone_opt_text(&self.label),
            total_shares: self.total_shares,
            threshold: self.threshold,
            quests: clone_quests(&self.quests),
        }
    }
}

impl Lock {
    /// A new lock with a fresh identifier.
    pub fn create(
        user_id: String,
        label: Option<String>,
        total_shares: u8,
        threshold: u8,
        quests: Vec<Quest>,
    ) -> (r: Lock)
        ensures
            r.user_id == user_id,
            r.label == label,
            r.total_shares == total_shares,
            r.threshold == threshold,
            r.quests == quests,
    {
        Lock { id: new_id(), user_id, label, total_shares, threshold, quests }
    }
}

} // verus!
