//! What a client sends to create a lock.
use vstd::prelude::*;

use crate::errors::AppError;
use crate::quest::clone_data;
use crate::share::{deserialize_quest_share, share_of};

verus! {

/// One quest of a creation request; `share` is base64-encoded.
#[derive(Debug, PartialEq, Eq)]
pub struct CreateQuestRequest {
    pub share: String,
    pub quest_type: String,
    pub data: Vec<(String, String)>,
}

/// A request to create a lock with its quests.
#[derive(Debug, PartialEq, Eq)]
pub struct CreateLockRequest {
    pub label: Option<String>,
    pub total_shares: u8,
    pub threshold: u8,
    pub quests: Vec<CreateQuestRequest>,
}

/// Every quest of a request carries a decodable share.
pub open spec fn all_shares_decodable(qs: Seq<CreateQuestRequest>) -> bool {
    forall|i: int| 0 <= i < qs.len() ==> #[trigger] share_of(qs[i].share@) is Some
}

/// Turns the quests of a request into (share text, quest type, metadata)
/// triples, in order; a share that does not decode refuses the whole request.
pub fn quest_data_from_request(quests: &Vec<CreateQuestRequest>) -> (r: Result<
    Vec<(String, String, Vec<(String, String)>)>,
    AppError,
>)
    ensures
        !all_shares_decodable(quests@) ==> r == Err::<Vec<(String, String, Vec<(String, String)>)>, AppError>(
            AppError::InvalidQuestShare,
        ),
        all_shares_decodable(quests@) ==> {
            &&& r is Ok
            &&& r.unwrap()@.len() == quests@.len()
            &&& forall|i: int| 0 <= i < quests@.len() ==> Some(#[trigger] r.unwrap()@[i].0@) == share_of(quests@[i].share@)
            &&& forall|i: int| 0 <= i < quests@.len() ==> #[trigger] r.unwrap()@[i].1 == quests@[i].quest_type
            &&& forall|i: int| 0 <= i < quests@.len() ==> #[trigger] r.unwrap()@[i].2@ == quests@[i].data@
        },
{
    let mut out: Vec<(String, String, Vec<(String, String)>)> = Vec::new();
    let mut i: usize = 0;
    while i < quests.len()
        invariant
            i <= quests.len(),
            out@.len() == i,
            forall|k: int| 0 <= k < i ==> #[trigger] share_of(quests@[k].share@) is Some,
            forall|k: int| 0 <= k < i ==> Some(#[trigger] out@[k].0@) == share_of(quests@[k].share@),
            forall|k: int| 0 <= k < i ==> #[trigger] out@[k].1 == quests@[k].quest_type,
            forall|k: int| 0 <= k < i ==> #[trigger] out@[k].2@ == quests@[k].data@,
        decreases quests.len() - i,
    {
        let share = match deserialize_quest_share(quests[i].share.clone()) {
            Ok(s) => s,
            Err(e) => {
                assert(!all_shares_decodable(quests@)) by {
                    assert(share_of(quests@[i as int].share@) is None);
                }
                return Err(e);
            },
        };
        out.push((share, quests[i].quest_type.clone(), clone_data(&quests[i].data)));
        i = i + 1;
    }
    assert(all_shares_decodable(quests@));
    Ok(out)
}

} // verus!
