use vstd::prelude::*;

use crate::ids::new_id;
use crate::text::str_equals;

verus! {

/// The closed set of challenge kinds that gate a share.
#[allow(non_camel_case_types)]
#[derive(Debug, Clone, Copy, PartialEq, Eq, Structural)]
pub enum QuestType {
    GEO,
    TIME,
    FRIEND,
    PAYWALL,
}

/// Progress of a quest; `PENDING` is the only initial state.
#[allow(non_camel_case_types)]
#[derive(Debug, Clone, Copy, PartialEq, Eq, Structural)]
pub enum QuestStatus {
    PENDING,
    COMPLETED,
}

/// Canonical text of a quest type, as stored and as shown to clients.
pub open spec fn quest_type_text(t: QuestType) -> Seq<char> {
    match t {
        QuestType::GEO => seq!['G', 'E', 'O'],
        QuestType::TIME => seq!['T', 'I', 'M', 'E'],
        QuestType::FRIEND => seq!['F', 'R', 'I', 'E', 'N', 'D'],
        QuestType::PAYWALL => seq!['P', 'A', 'Y', 'W', 'A', 'L', 'L'],
    }
}

/// Canonical text of a quest status.
pub open spec fn quest_status_text(s: QuestStatus) -> Seq<char> {
    match s {
        QuestStatus::PENDING => seq!['P', 'E', 'N', 'D', 'I', 'N', 'G'],
        QuestStatus::COMPLETED => seq!['C', 'O', 'M', 'P', 'L', 'E', 'T', 'E', 'D'],
    }
}

/// Lower-case name of a quest type, also accepted when parsing.
pub open spec fn quest_type_lower_text(t: QuestType) -> Seq<char> {
    match t {
        QuestType::GEO => seq!['g', 'e', 'o'],
        QuestType::TIME => seq!['t', 'i', 'm', 'e'],
        QuestType::FRIEND => seq!['f', 'r', 'i', 'e', 'n', 'd'],
        QuestType::PAYWALL => seq!['p', 'a', 'y', 'w', 'a', 'l', 'l'],
    }
}

/// Lower-case name of a status, also accepted when parsing.
pub open spec fn quest_status_lower_text(s: QuestStatus) -> Seq<char> {
    match s {
        QuestStatus::PENDING => seq!['p', 'e', 'n', 'd', 'i', 'n', 'g'],
        QuestStatus::COMPLETED => seq!['c', 'o', 'm', 'p', 'l', 'e', 't', 'e', 'd'],
    }
}

/// The variant a text names, in upper or lower case.
pub open spec fn names_type(s: Seq<char>, t: QuestType) -> bool {
    s == quest_type_text(t) || s == quest_type_lower_text(t)
}

/// The status a text names, in upper or lower case.
pub open spec fn names_status(s: Seq<char>, st: QuestStatus) -> bool {
    s == quest_status_text(st) || s == quest_status_lower_text(st)
}

/// Checked closed-set decoding: the upper- or lower-case name of a variant,
/// and nothing else.
pub open spec fn quest_type_from_text(s: Seq<char>) -> Option<QuestType> {
    if names_type(s, QuestType::GEO) {
        Some(QuestType::GEO)
    } else if names_type(s, QuestType::TIME) {
        Some(QuestType::TIME)
    } else if names_type(s, QuestType::FRIEND) {
        Some(QuestType::FRIEND)
    } else if names_type(s, QuestType::PAYWALL) {
        Some(QuestType::PAYWALL)
    } else {
        None
    }
}

/// Checked closed-set decoding of a status.
pub open spec fn quest_status_from_text(s: Seq<char>) -> Option<QuestStatus> {
    if names_status(s, QuestStatus::PENDING) {
        Some(QuestStatus::PENDING)
    } else if names_status(s, QuestStatus::COMPLETED) {
        Some(QuestStatus::COMPLETED)
    } else {
        None
    }
}

impl QuestType {
    /// Parses the upper- or lower-case name of a quest type.
    pub fn from_str(s: &str) -> (r: Option<QuestType>)
        ensures
            r == quest_type_from_text(s@),
    {
        proof {
            reveal_strlit("GEO");
            reveal_strlit("geo");
            reveal_strlit("TIME");
            reveal_strlit("time");
            reveal_strlit("FRIEND");
            reveal_strlit("friend");
            reveal_strlit("PAYWALL");
            reveal_strlit("paywall");
            assert(quest_type_lower_text(QuestType::GEO) =~= "geo"@);
            assert(quest_type_lower_text(QuestType::TIME) =~= "time"@);
            assert(quest_type_lower_text(QuestType::FRIEND) =~= "friend"@);
            assert(quest_type_lower_text(QuestType::PAYWALL) =~= "paywall"@);
            assert(quest_type_text(QuestType::GEO) =~= "GEO"@);
            assert(quest_type_text(QuestType::TIME) =~= "TIME"@);
            assert(quest_type_text(QuestType::FRIEND) =~= "FRIEND"@);
            assert(quest_type_text(QuestType::PAYWALL) =~= "PAYWALL"@);
        }
        if str_equals(s, "GEO") || str_equals(s, "geo") {
            Some(QuestType::GEO)
        } else if str_equals(s, "TIME") || str_equals(s, "time") {
            Some(QuestType::TIME)
        } else if str_equals(s, "FRIEND") || str_equals(s, "friend") {
            Some(QuestType::FRIEND)
        } else if str_equals(s, "PAYWALL") || str_equals(s, "paywall") {
            Some(QuestType::PAYWALL)
        } else {
            None
        }
    }

    /// The canonical (upper-case) name.
    pub fn to_string(&self) -> (r: String)
        ensures
            r@ == quest_type_text(*self),
    {
        proof {
            reveal_strlit("GEO");
            reveal_strlit("TIME");
            reveal_strlit("FRIEND");
            reveal_strlit("PAYWALL");
        }
        let r = match self {
            QuestType::GEO => String::from_str("GEO"),
            QuestType::TIME => String::from_str("TIME"),
            QuestType::FRIEND => String::from_str("FRIEND"),
            QuestType::PAYWALL => String::from_str("PAYWALL"),
        };
        assert(r@ =~= quest_type_text(*self));
        r
    }
}

impl QuestStatus {
    /// Parses the upper- or lower-case name of a status.
    pub fn from_str(s: &str) -> (r: Option<QuestStatus>)
        ensures
            r == quest_status_from_text(s@),
    {
        proof {
            reveal_strlit("PENDING");
            reveal_strlit("pending");
            reveal_strlit("COMPLETED");
            reveal_strlit("completed");
            assert(quest_status_lower_text(QuestStatus::PENDING) =~= "pending"@);
            assert(quest_status_lower_text(QuestStatus::COMPLETED) =~= "completed"@);
            assert(quest_status_text(QuestStatus::PENDING) =~= "PENDING"@);
            assert(quest_status_text(QuestStatus::COMPLETED) =~= "COMPLETED"@);
        }
        if str_equals(s, "PENDING") || str_equals(s, "pending") {
            Some(QuestStatus::PENDING)
        } else if str_equals(s, "COMPLETED") || str_equals(s, "completed") {
            Some(QuestStatus::COMPLETED)
        } else {
            None
        }
    }

    /// The canonical (upper-case) name.
    pub fn to_string(&self) -> (r: String)
        ensures
            r@ == quest_status_text(*self),
    {
        proof {
            reveal_strlit("PENDING");
            reveal_strlit("COMPLETED");
        }
        let r = match self {
            QuestStatus::PENDING => String::from_str("PENDING"),
            QuestStatus::COMPLETED => String::from_str("COMPLETED"),
        };
        assert(r@ =~= quest_status_text(*self));
        r
    }
}

/// Free-form quest metadata: key and value pairs.
pub open spec fn data_view(d: Seq<(String, String)>) -> Seq<(Seq<char>, Seq<char>)> {
    d.map_values(|e: (String, String)| (e.0@, e.1@))
}

/// No key occurs twice in quest metadata: it is a mapping.
pub open spec fn keys_unique(d: Seq<(Seq<char>, Seq<char>)>) -> bool {
    forall|i: int, j: int| 0 <= i < j < d.len() ==> #[trigger] d[i].0 != #[trigger] d[j].0
}

/// Whether no key occurs twice in quest metadata.
pub fn keys_distinct(d: &Vec<(String, String)>) -> (r: bool)
    ensures
        r == keys_unique(data_view(d@)),
{
    let ghost dv = data_view(d@);
    let mut j: usize = 0;
    while j < d.len()
        invariant
            j <= d.len(),
            dv == data_view(d@),
            forall|a: int, b: int| 0 <= a < b < j ==> #[trigger] dv[a].0 != #[trigger] dv[b].0,
        decreases d.len() - j,
    {
        let mut i: usize = 0;
        while i < j
            invariant
                i <= j < d.len(),
                dv == data_view(d@),
                forall|a: int, b: int| 0 <= a < b < j ==> #[trigger] dv[a].0 != #[trigger] dv[b].0,
                forall|a: int| 0 <= a < i ==> #[trigger] dv[a].0 != dv[j as int].0,
            decreases j - i,
        {
            if str_equals(d[i].0.as_str(), d[j].0.as_str()) {
                assert(dv[i as int].0 == dv[j as int].0);
                return false;
            }
            i = i + 1;
        }
        j = j + 1;
    }
    true
}

/// A child record of a lock: one condition gating an opaque share.
#[derive(Debug)]
pub struct Quest {
    pub id: u128,
    pub lock_id: u128,
    pub share: String,
    pub quest_type: QuestType,
    pub status: QuestStatus,
    pub data: Vec<(String, String)>,
}

/// The value of a quest.
pub struct QuestView {
    pub id: u128,
    pub lock_id: u128,
    pub share: Seq<char>,
    pub quest_type: QuestType,
    pub status: QuestStatus,
    pub data: Seq<(Seq<char>, Seq<char>)>,
}

impl View for Quest {
    type V = QuestView;

    open spec fn view(&self) -> QuestView {
        QuestView {
            id: self.id,
            lock_id: self.lock_id,
            share: self.share@,
            quest_type: self.quest_type,
            status: self.status,
            data: data_view(self.data@),
        }
    }
}

/// Copies quest metadata entry by entry.
pub fn clone_data(d: &Vec<(String, String)>) -> (r: Vec<(String, String)>)
    ensures
        r@ == d@,
{
    let mut r: Vec<(String, String)> = Vec::new();
    let mut i: usize = 0;
    while i < d.len()
        invariant
            i <= d.len(),
            r@ == d@.subrange(0, i as int),
        decreases d.len() - i,
    {
        let e = (d[i].0.clone(), d[i].1.clone());
        r.push(e);
        i = i + 1;
        assert(r@ =~= d@.subrange(0, i as int));
    }
    assert(r@ =~= d@);
    r
}

impl Clone for Quest {
    fn clone(&self) -> (r: Self)
        ensures
            r@ == self@,
    {
        let data = clone_data(&self.data);
        Quest {
            id: self.id,
            lock_id: self.lock_id,
            share: self.share.clone(),
            quest_type: self.quest_type,
            status: self.status,
            data,
        }
    }
}

impl Quest {
    /// A new quest with a fresh identifier; the status defaults to `PENDING`.
    pub fn create(
        lock_id: u128,
        share: String,
        quest_type: QuestType,
        status: Option<QuestStatus>,
        data: Vec<(String, String)>,
    ) -> (r: Quest)
        ensures
            r.lock_id == lock_id,
            r.share == share,
            r.quest_type == quest_type,
            r.status == match status {
                Some(s) => s,
                None => QuestStatus::PENDING,
            },
            r.data == data,
    {
        let status = match status {
            Some(s) => s,
            None => QuestStatus::PENDING,
        };
        Quest { id: new_id(), lock_id, share, quest_type, status, data }
    }
}

} // verus!
