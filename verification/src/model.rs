//! The talk card data model: the closed set of talk categories and the
//! records the store keeps for each card.

use vstd::prelude::*;

verus! {

/// The category a talk card belongs to.
///
/// Categories are stored under a small integer code and shown on the wire
/// under a fixed lower-case name.
#[derive(Debug, Copy, Clone, PartialEq, Eq, Structural)]
pub enum TalkType {
    ForumTopic,
    LightningTalk,
    ProjectUpdate,
    Announcement,
    AfterMeetingSlot,
}

impl TalkType {
    /// The integer code a category is stored under.
    pub open spec fn spec_code(self) -> i32 {
        match self {
            TalkType::ForumTopic => 0,
            TalkType::LightningTalk => 1,
            TalkType::ProjectUpdate => 2,
            TalkType::Announcement => 3,
            TalkType::AfterMeetingSlot => 4,
        }
    }

    pub fn code(self) -> (c: i32)
        ensures
            c == self.spec_code(),
    {
        match self {
            TalkType::ForumTopic => 0,
            TalkType::LightningTalk => 1,
            TalkType::ProjectUpdate => 2,
            TalkType::Announcement => 3,
            TalkType::AfterMeetingSlot => 4,
        }
    }

    /// The category stored under a code, if the code is in range.
    pub open spec fn spec_from_code(c: i32) -> Option<TalkType> {
        if c == 0 {
            Some(TalkType::ForumTopic)
        } else if c == 1 {
            Some(TalkType::LightningTalk)
        } else if c == 2 {
            Some(TalkType::ProjectUpdate)
        } else if c == 3 {
            Some(TalkType::Announcement)
        } else if c == 4 {
            Some(TalkType::AfterMeetingSlot)
        } else {
            None
        }
    }

    pub fn from_code(c: i32) -> (t: Option<TalkType>)
        ensures
            t == TalkType::spec_from_code(c),
    {
        if c == 0 {
            Some(TalkType::ForumTopic)
        } else if c == 1 {
            Some(TalkType::LightningTalk)
        } else if c == 2 {
            Some(TalkType::ProjectUpdate)
        } else if c == 3 {
            Some(TalkType::Announcement)
        } else if c == 4 {
            Some(TalkType::AfterMeetingSlot)
        } else {
            None
        }
    }

    /// The name a category carries on the wire and on the page.
    pub open spec fn spec_name(self) -> Seq<char> {
        match self {
            TalkType::ForumTopic => "forum topic"@,
            TalkType::LightningTalk => "lightning talk"@,
            TalkType::ProjectUpdate => "project update"@,
            TalkType::Announcement => "announcement"@,
            TalkType::AfterMeetingSlot => "after meeting slot"@,
        }
    }

    pub fn name(self) -> (s: &'static str)
        ensures
            s@ == self.spec_name(),
    {
        match self {
            TalkType::ForumTopic => "forum topic",
            TalkType::LightningTalk => "lightning talk",
            TalkType::ProjectUpdate => "project update",
            TalkType::Announcement => "announcement",
            TalkType::AfterMeetingSlot => "after meeting slot",
        }
    }
}

/// One talk card, as the store keeps it.
///
/// The id is assigned by the store and never changes; `is_visible` only
/// ever moves from `true` to `false` (a hidden card is never shown again).
#[derive(Debug, Clone)]
pub struct Talk {
    pub id: i32,
    pub name: String,
    pub talk_type: TalkType,
    pub description: String,
    pub is_visible: bool,
}

/// The fields a caller supplies when creating a talk card; the store
/// assigns the id.
#[derive(Debug, Clone)]
pub struct CreateTalk {
    pub name: String,
    pub talk_type: TalkType,
    pub description: String,
    pub is_visible: bool,
}

} // verus!
