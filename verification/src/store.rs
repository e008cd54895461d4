//! The talk store: the system of record for talk cards.
//!
//! Ids are issued from a counter that only moves forward, so a card id is
//! never reused. Hiding is idempotent and hiding an id the store does not
//! hold succeeds as a no-op; both match the contract the event pipeline
//! relies on.

use crate::model::{CreateTalk, Talk, TalkType};
use vstd::prelude::*;

verus! {

/// Error for store operations that cannot complete; creation reports it
/// once the id space is exhausted.
#[derive(Debug, Clone, Copy, PartialEq, Eq, Structural)]
pub struct StoreError;

/// Whether `s` holds a card under `id`.
pub open spec fn contains_talk(s: Seq<Talk>, id: i32) -> bool {
    exists|i: int| 0 <= i < s.len() && s[i].id == id
}

/// The position of the card under `id` (meaningful when ids are distinct
/// and `contains_talk(s, id)` holds).
pub open spec fn talk_idx(s: Seq<Talk>, id: i32) -> int {
    choose|i: int| 0 <= i < s.len() && s[i].id == id
}

/// The card held under `id`.
pub open spec fn talk_of(s: Seq<Talk>, id: i32) -> Talk {
    s[talk_idx(s, id)]
}

/// Cards are strictly ordered by id: ids are distinct and listing order
/// is creation order.
pub open spec fn talks_sorted(s: Seq<Talk>) -> bool {
    forall|i: int, j: int| 0 <= i < j < s.len() ==> s[i].id < s[j].id
}

/// The card a creation request files under `id`.
pub open spec fn talk_from(id: i32, talk: CreateTalk) -> Talk {
    Talk {
        id,
        name: talk.name,
        talk_type: talk.talk_type,
        description: talk.description,
        is_visible: talk.is_visible,
    }
}

/// The card under `id` with the given visibility; everything else kept.
pub open spec fn spec_set_visible(s: Seq<Talk>, id: i32, visible: bool) -> Seq<Talk> {
    if contains_talk(s, id) {
        s.update(
            talk_idx(s, id),
            Talk {
                id,
                name: talk_of(s, id).name,
                talk_type: talk_of(s, id).talk_type,
                description: talk_of(s, id).description,
                is_visible: visible,
            },
        )
    } else {
        s
    }
}

/// Deletion drops the card under `id` if there is one.
pub open spec fn spec_delete(s: Seq<Talk>, id: i32) -> Seq<Talk> {
    if contains_talk(s, id) {
        s.remove(talk_idx(s, id))
    } else {
        s
    }
}

/// The visible cards of one category, in creation order.
pub open spec fn visible_of_type(s: Seq<Talk>, t: TalkType) -> Seq<Talk>
    decreases s.len(),
{
    if s.len() == 0 {
        Seq::empty()
    } else {
        let rest = visible_of_type(s.drop_last(), t);
        if s.last().is_visible && s.last().talk_type == t {
            rest.push(s.last())
        } else {
            rest
        }
    }
}

/// The visible cards in listing order: by category, creation order within
/// a category.
pub open spec fn spec_visible_listing(s: Seq<Talk>) -> Seq<Talk> {
    visible_of_type(s, TalkType::ForumTopic) + visible_of_type(s, TalkType::LightningTalk)
        + visible_of_type(s, TalkType::ProjectUpdate) + visible_of_type(s, TalkType::Announcement)
        + visible_of_type(s, TalkType::AfterMeetingSlot)
}

/// In a strictly ordered card sequence the position of an id is unique.
proof fn lemma_talk_idx_unique(s: Seq<Talk>, id: i32, i: int)
    requires
        talks_sorted(s),
        0 <= i < s.len(),
        s[i].id == id,
    ensures
        contains_talk(s, id),
        talk_idx(s, id) == i,
{
    assert(contains_talk(s, id));
    let j = talk_idx(s, id);
    if i < j {
        assert(s[i].id < s[j].id);
    } else if j < i {
        assert(s[j].id < s[i].id);
    }
}

/// The store of talk cards.
pub struct TalkStore {
    talks: Vec<Talk>,
    next_id: i32,
}

impl View for TalkStore {
    type V = Seq<Talk>;

    closed spec fn view(&self) -> Seq<Talk> {
        self.talks@
    }
}

impl TalkStore {
    /// The id the next created card will carry.
    pub closed spec fn spec_next_id(&self) -> i32 {
        self.next_id
    }

    /// Cards are strictly ordered by id, every id is positive, and every
    /// id held is below the issue counter.
    pub open spec fn wf(&self) -> bool {
        &&& talks_sorted(self@)
        &&& 1 <= self.spec_next_id()
        &&& forall|i: int| 0 <= i < self@.len() ==> #[trigger] self@[i].id < self.spec_next_id()
        &&& forall|i: int| 0 <= i < self@.len() ==> 1 <= #[trigger] self@[i].id
    }

    pub fn new() -> (r: TalkStore)
        ensures
            r@ == Seq::<Talk>::empty(),
            r.spec_next_id() == 1,
            r.wf(),
    {
        TalkStore { talks: Vec::new(), next_id: 1 }
    }

    /// Files a new card under a fresh id and reports the id; fails only
    /// once the id space is exhausted, and then changes nothing.
    pub fn create_talk(&mut self, talk: CreateTalk) -> (r: Result<i32, StoreError>)
        requires
            old(self).wf(),
        ensures
            final(self).wf(),
            r is Ok <==> old(self).spec_next_id() < i32::MAX,
            r matches Ok(id) ==> {
                &&& id == old(self).spec_next_id()
                &&& final(self).spec_next_id() == id + 1
                &&& final(self)@ == old(self)@.push(talk_from(id, talk))
                &&& !contains_talk(old(self)@, id)
            },
            r is Err ==> final(self)@ == old(self)@ && final(self).spec_next_id() == old(
                self,
            ).spec_next_id(),
    {
        if self.next_id == i32::MAX {
            return Err(StoreError);
        }
        let id = self.next_id;
        self.next_id = self.next_id + 1;
        self.talks.push(
            Talk {
                id,
                name: talk.name,
                talk_type: talk.talk_type,
                description: talk.description,
                is_visible: talk.is_visible,
            },
        );
        Ok(id)
    }

    /// The position of the card under `id`, if the store holds one.
    fn find(&self, id: i32) -> (r: Option<usize>)
        requires
            self.wf(),
        ensures
            match r {
                Some(i) => i < self@.len() && self@[i as int].id == id && talk_idx(self@, id)
                    == i as int && contains_talk(self@, id),
                None => !contains_talk(self@, id),
            },
    {
        let n = self.talks.len();
        let mut i: usize = 0;
        while i < n
            invariant
                self.wf(),
                n == self@.len(),
                i <= n,
                forall|j: int| 0 <= j < i ==> self@[j].id != id,
            decreases n - i,
        {
            if self.talks[i].id == id {
                proof {
                    lemma_talk_idx_unique(self@, id, i as int);
                }
                return Some(i);
            }
            i = i + 1;
        }
        None
    }

    /// Sets the visibility of the card under `id` and reports how many
    /// cards changed; shared path of hiding and unhiding.
    fn set_visible(&mut self, id: i32, visible: bool) -> (r: usize)
        requires
            old(self).wf(),
        ensures
            final(self).wf(),
            final(self).spec_next_id() == old(self).spec_next_id(),
            final(self)@ == spec_set_visible(old(self)@, id, visible),
            r == (if contains_talk(old(self)@, id) {
                1int
            } else {
                0int
            }),
    {
        match self.find(id) {
            Some(i) => {
                let t = &self.talks[i];
                let updated = Talk {
                    id,
                    name: t.name.clone(),
                    talk_type: t.talk_type,
                    description: t.description.clone(),
                    is_visible: visible,
                };
                self.talks[i] = updated;
                proof {
                    let ghost old_s = old(self)@;
                    let ghost s = self@;
                    assert(entries_match_but(s, old_s, i as int));
                    assert(talks_sorted(s)) by {
                        assert forall|p: int, q: int| 0 <= p < q < s.len() implies s[p].id
                            < s[q].id by {
                            assert(s[p].id == old_s[p].id && s[q].id == old_s[q].id);
                        }
                    }
                }
                1
            },
            None => 0,
        }
    }

    /// Hides the card under `id`. Idempotent, and an id the store does
    /// not hold is a no-op success: at this layer hiding never fails.
    pub fn hide_talk(&mut self, talk_id: i32) -> (r: Result<usize, StoreError>)
        requires
            old(self).wf(),
        ensures
            final(self).wf(),
            final(self).spec_next_id() == old(self).spec_next_id(),
            r is Ok,
            final(self)@ == spec_set_visible(old(self)@, talk_id, false),
            r matches Ok(n) ==> n == (if contains_talk(old(self)@, talk_id) {
                1int
            } else {
                0int
            }),
    {
        Ok(self.set_visible(talk_id, false))
    }

    /// Shows the card under `id` again; the event pipeline never calls
    /// this, but the store keeps the operation for administrative use.
    pub fn unhide_talk(&mut self, talk_id: i32) -> (r: Result<usize, StoreError>)
        requires
            old(self).wf(),
        ensures
            final(self).wf(),
            final(self).spec_next_id() == old(self).spec_next_id(),
            r is Ok,
            final(self)@ == spec_set_visible(old(self)@, talk_id, true),
            r matches Ok(n) ==> n == (if contains_talk(old(self)@, talk_id) {
                1int
            } else {
                0int
            }),
    {
        Ok(self.set_visible(talk_id, true))
    }

    /// Drops the card under `id` and reports how many cards went.
    pub fn delete_talk(&mut self, talk_id: i32) -> (r: Result<usize, StoreError>)
        requires
            old(self).wf(),
        ensures
            final(self).wf(),
            final(self).spec_next_id() == old(self).spec_next_id(),
            r is Ok,
            final(self)@ == spec_delete(old(self)@, talk_id),
            r matches Ok(n) ==> n == (if contains_talk(old(self)@, talk_id) {
                1int
            } else {
                0int
            }),
    {
        match self.find(talk_id) {
            Some(i) => {
                self.talks.remove(i);
                proof {
                    let ghost old_s = old(self)@;
                    let ghost s = self@;
                    old_s.remove_ensures(i as int);
                    assert(talks_sorted(s)) by {
                        assert forall|p: int, q: int| 0 <= p < q < s.len() implies s[p].id
                            < s[q].id by {
                            let p0 = if p < i as int {
                                p
                            } else {
                                p + 1
                            };
                            let q0 = if q < i as int {
                                q
                            } else {
                                q + 1
                            };
                            assert(s[p] == old_s[p0] && s[q] == old_s[q0]);
                            assert(0 <= p0 < q0 < old_s.len());
                        }
                    }
                }
                Ok(1)
            },
            None => Ok(0),
        }
    }

    /// Every card the store holds, in creation order.
    pub fn list_all_talks(&self) -> (r: Result<Vec<Talk>, StoreError>)
        requires
            self.wf(),
        ensures
            r matches Ok(v) && v@ == self@,
    {
        let n = self.talks.len();
        let mut out: Vec<Talk> = Vec::new();
        let mut i: usize = 0;
        while i < n
            invariant
                self.wf(),
                n == self@.len(),
                i <= n,
                out@ == self@.take(i as int),
            decreases n - i,
        {
            let t = &self.talks[i];
            out.push(
                Talk {
                    id: t.id,
                    name: t.name.clone(),
                    talk_type: t.talk_type,
                    description: t.description.clone(),
                    is_visible: t.is_visible,
                },
            );
            proof {
                assert(out@.last() == self@[i as int]);
                assert(out@ =~= self@.take(i + 1 as int));
            }
            i = i + 1;
        }
        proof {
            assert(self@.take(n as int) =~= self@);
        }
        Ok(out)
    }

    /// The visible cards in listing order: grouped by category, creation
    /// order within a category.
    pub fn list_visible_talks(&self) -> (r: Result<Vec<Talk>, StoreError>)
        requires
            self.wf(),
        ensures
            r matches Ok(v) && v@ == spec_visible_listing(self@),
    {
        let mut out: Vec<Talk> = Vec::new();
        self.push_visible_of_type(&mut out, TalkType::ForumTopic);
        self.push_visible_of_type(&mut out, TalkType::LightningTalk);
        self.push_visible_of_type(&mut out, TalkType::ProjectUpdate);
        self.push_visible_of_type(&mut out, TalkType::Announcement);
        self.push_visible_of_type(&mut out, TalkType::AfterMeetingSlot);
        Ok(out)
    }

    /// Appends the visible cards of one category, in creation order.
    fn push_visible_of_type(&self, out: &mut Vec<Talk>, t: TalkType)
        requires
            self.wf(),
        ensures
            final(out)@ == old(out)@ + visible_of_type(self@, t),
    {
        let n = self.talks.len();
        let mut i: usize = 0;
        while i < n
            invariant
                self.wf(),
                n == self@.len(),
                i <= n,
                out@ == old(out)@ + visible_of_type(self@.take(i as int), t),
            decreases n - i,
        {
            proof {
                assert(self@.take(i + 1 as int).drop_last() =~= self@.take(i as int));
                assert(self@.take(i + 1 as int).last() == self@[i as int]);
            }
            let c = &self.talks[i];
            if c.is_visible && c.talk_type == t {
                out.push(
                    Talk {
                        id: c.id,
                        name: c.name.clone(),
                        talk_type: c.talk_type,
                        description: c.description.clone(),
                        is_visible: c.is_visible,
                    },
                );
                proof {
                    assert(out@.last() == self@[i as int]);
                    assert(out@ =~= old(out)@ + visible_of_type(self@.take(i + 1 as int), t));
                }
            }
            i = i + 1;
        }
        proof {
            assert(self@.take(n as int) =~= self@);
        }
    }
}

/// Ids at every position survive an in-place update of one card.
spec fn entries_match_but(s: Seq<Talk>, old_s: Seq<Talk>, i: int) -> bool {
    s.len() == old_s.len() && forall|j: int| 0 <= j < s.len() ==> #[trigger] s[j].id == old_s[j].id
}

} // verus!
