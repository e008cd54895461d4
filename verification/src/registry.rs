//! The live client registry: one entry per registered client, keyed by a
//! fresh id that is never reused during the life of the process.
//!
//! An entry starts with no outbound path and one round of grace against
//! garbage collection; the transport layer attaches a [`Sender`] once the
//! socket is up, and the sweep in [`ClientRegistry::collect_garbage`]
//! evicts entries whose outbound path never came or has gone away.

use vstd::prelude::*;

verus! {

/// Handle to one connection's outbound path.
///
/// The registry only stores and hands these out; the transport layer keys
/// its real channel by the token inside.
#[derive(Debug, Clone, Copy, PartialEq, Eq, Structural)]
pub struct Sender {
    pub channel: u64,
}

/// The state the registry keeps for one registered client.
#[derive(Debug, Clone, Copy)]
pub struct Client {
    /// Outbound path, absent until the socket upgrade completes.
    pub sender: Option<Sender>,
    /// Whether mutation requests from this client may be acted on.
    pub authenticated: bool,
    /// One round of protection against the garbage collector while the
    /// client is still completing its socket upgrade.
    pub second_chance: bool,
}

/// Error for operations that name an id the registry does not hold.
#[derive(Debug, Clone, Copy, PartialEq, Eq, Structural)]
pub struct NotFound;

/// Whether `s` holds an entry under `id`.
pub open spec fn contains_id(s: Seq<(u64, Client)>, id: u64) -> bool {
    exists|i: int| 0 <= i < s.len() && s[i].0 == id
}

/// The position of the entry under `id` (meaningful when the ids of `s`
/// are distinct and `contains_id(s, id)` holds).
pub open spec fn idx_of(s: Seq<(u64, Client)>, id: u64) -> int {
    choose|i: int| 0 <= i < s.len() && s[i].0 == id
}

/// The client state held under `id`.
pub open spec fn client_of(s: Seq<(u64, Client)>, id: u64) -> Client {
    s[idx_of(s, id)].1
}

/// Entries are strictly ordered by id: ids are distinct, and iteration
/// order is the order of registration.
pub open spec fn entries_sorted(s: Seq<(u64, Client)>) -> bool {
    forall|i: int, j: int| 0 <= i < j < s.len() ==> s[i].0 < s[j].0
}

/// Whether requests from `id` may be acted on: the registry holds the
/// id and its entry is authenticated. An absent id counts as not
/// authenticated.
pub open spec fn spec_is_authenticated(s: Seq<(u64, Client)>, id: u64) -> bool {
    contains_id(s, id) && client_of(s, id).authenticated
}

/// The outbound handles of the entries that have one, in registry order.
pub open spec fn live_senders(s: Seq<(u64, Client)>) -> Seq<Sender>
    decreases s.len(),
{
    if s.len() == 0 {
        Seq::empty()
    } else {
        let rest = live_senders(s.drop_last());
        match s.last().1.sender {
            Some(h) => rest.push(h),
            None => rest,
        }
    }
}

/// Registration appends a fresh entry: no outbound path yet, and one
/// round of grace against the collector.
pub open spec fn spec_register(s: Seq<(u64, Client)>, id: u64, authenticated: bool) -> Seq<
    (u64, Client),
> {
    s.push((id, Client { sender: None, authenticated, second_chance: true }))
}

/// The entry under `id` with its outbound path set to `h`.
pub open spec fn spec_attach(s: Seq<(u64, Client)>, id: u64, h: Sender) -> Seq<(u64, Client)> {
    s.update(
        idx_of(s, id),
        (
            id,
            Client {
                sender: Some(h),
                authenticated: client_of(s, id).authenticated,
                second_chance: client_of(s, id).second_chance,
            },
        ),
    )
}

/// The entry under `id` with its authenticated flag raised.
pub open spec fn spec_set_authenticated(s: Seq<(u64, Client)>, id: u64) -> Seq<(u64, Client)> {
    s.update(
        idx_of(s, id),
        (
            id,
            Client {
                sender: client_of(s, id).sender,
                authenticated: true,
                second_chance: client_of(s, id).second_chance,
            },
        ),
    )
}

/// Removal drops the entry under `id` if there is one; removing an absent
/// id changes nothing.
pub open spec fn spec_remove(s: Seq<(u64, Client)>, id: u64) -> Seq<(u64, Client)> {
    if contains_id(s, id) {
        s.remove(idx_of(s, id))
    } else {
        s
    }
}

/// An entry the sweep is about to evict: no outbound path and no grace
/// left.
pub open spec fn gc_doomed(e: (u64, Client)) -> bool {
    e.1.sender is None && !e.1.second_chance
}

/// The marking pass spends the grace of every entry without an outbound
/// path; entries with one are untouched.
pub open spec fn gc_flip(e: (u64, Client)) -> (u64, Client) {
    match e.1.sender {
        None => (
            e.0,
            Client { sender: None, authenticated: e.1.authenticated, second_chance: false },
        ),
        Some(_) => e,
    }
}

/// The registry after the marking pass alone.
pub open spec fn spec_gc_mark(s: Seq<(u64, Client)>) -> Seq<(u64, Client)> {
    s.map_values(|e: (u64, Client)| gc_flip(e))
}

/// The ids the marking pass hands to the removal pass, in registry order.
pub open spec fn spec_marked_ids(s: Seq<(u64, Client)>) -> Seq<u64>
    decreases s.len(),
{
    if s.len() == 0 {
        Seq::empty()
    } else {
        let rest = spec_marked_ids(s.drop_last());
        if gc_doomed(s.last()) {
            rest.push(s.last().0)
        } else {
            rest
        }
    }
}

/// One whole sweep: entries without an outbound path and without grace
/// are dropped; the rest stay, with the grace of path-less entries spent.
pub open spec fn spec_gc_sweep(s: Seq<(u64, Client)>) -> Seq<(u64, Client)>
    decreases s.len(),
{
    if s.len() == 0 {
        Seq::empty()
    } else {
        let rest = spec_gc_sweep(s.drop_last());
        if gc_doomed(s.last()) {
            rest
        } else {
            rest.push(gc_flip(s.last()))
        }
    }
}

/// In a strictly ordered entry sequence the position of an id is unique.
proof fn lemma_idx_of_unique(s: Seq<(u64, Client)>, id: u64, i: int)
    requires
        entries_sorted(s),
        0 <= i < s.len(),
        s[i].0 == id,
    ensures
        contains_id(s, id),
        idx_of(s, id) == i,
{
    assert(contains_id(s, id));
    let j = idx_of(s, id);
    if i < j {
        assert(s[i].0 < s[j].0);
    } else if j < i {
        assert(s[j].0 < s[i].0);
    }
}

/// The registry of live clients.
///
/// Ids are issued from a counter that only moves forward, so an id seen
/// once is never seen again, whether or not its entry was removed in
/// between.
pub struct ClientRegistry {
    entries: Vec<(u64, Client)>,
    next_id: u64,
}

impl View for ClientRegistry {
    type V = Seq<(u64, Client)>;

    closed spec fn view(&self) -> Seq<(u64, Client)> {
        self.entries@
    }
}

impl ClientRegistry {
    /// The id the next registration will be issued.
    pub closed spec fn spec_next_id(&self) -> u64 {
        self.next_id
    }

    /// Entries are strictly ordered by id and every id held is below the
    /// issue counter.
    pub open spec fn wf(&self) -> bool {
        &&& entries_sorted(self@)
        &&& forall|i: int| 0 <= i < self@.len() ==> #[trigger] self@[i].0 < self.spec_next_id()
    }

    pub fn new() -> (r: ClientRegistry)
        ensures
            r@ == Seq::<(u64, Client)>::empty(),
            r.spec_next_id() == 0,
            r.wf(),
    {
        ClientRegistry { entries: Vec::new(), next_id: 0 }
    }

    /// Whether another registration can still be issued a fresh id. On any
    /// real workload this never turns false; the transport layer checks it
    /// before calling [`ClientRegistry::register`].
    pub fn can_register(&self) -> (r: bool)
        ensures
            r == (self.spec_next_id() < u64::MAX),
    {
        self.next_id < u64::MAX
    }

    /// Issues a fresh id, never seen before, and files a new entry under
    /// it: no outbound path, the given authentication state, and one round
    /// of grace. The entry is visible to every reader at once.
    pub fn register(&mut self, authenticated: bool) -> (id: u64)
        requires
            old(self).wf(),
            old(self).spec_next_id() < u64::MAX,
        ensures
            final(self).wf(),
            id == old(self).spec_next_id(),
            final(self).spec_next_id() == id + 1,
            !contains_id(old(self)@, id),
            final(self)@ == spec_register(old(self)@, id, authenticated),
            contains_id(final(self)@, id),
            client_of(final(self)@, id) == (Client {
                sender: None,
                authenticated,
                second_chance: true,
            }),
    {
        let id = self.next_id;
        self.next_id = self.next_id + 1;
        self.entries.push((id, Client { sender: None, authenticated, second_chance: true }));
        proof {
            let s = self.entries@;
            lemma_idx_of_unique(s, id, s.len() - 1);
        }
        id
    }

    /// The position of the entry under `id`, if the registry holds one.
    fn find(&self, id: u64) -> (r: Option<usize>)
        requires
            self.wf(),
        ensures
            match r {
                Some(i) => i < self@.len() && self@[i as int].0 == id && idx_of(self@, id)
                    == i as int && contains_id(self@, id),
                None => !contains_id(self@, id),
            },
    {
        let n = self.entries.len();
        let mut i: usize = 0;
        while i < n
            invariant
                self.wf(),
                n == self@.len(),
                i <= n,
                forall|j: int| 0 <= j < i ==> self@[j].0 != id,
            decreases n - i,
        {
            if self.entries[i].0 == id {
                proof {
                    lemma_idx_of_unique(self@, id, i as int);
                }
                return Some(i);
            }
            i = i + 1;
        }
        None
    }

    /// Whether the registry holds an entry under `id`.
    pub fn contains(&self, id: u64) -> (r: bool)
        requires
            self.wf(),
        ensures
            r == contains_id(self@, id),
    {
        self.find(id).is_some()
    }

    /// Stores the outbound path of `id` and reports success; if the entry
    /// was already reaped this is a no-op reporting failure, and the
    /// caller must treat the connection as superseded.
    pub fn attach_sender(&mut self, id: u64, handle: Sender) -> (r: bool)
        requires
            old(self).wf(),
        ensures
            final(self).wf(),
            r == contains_id(old(self)@, id),
            final(self).spec_next_id() == old(self).spec_next_id(),
            r ==> final(self)@ == spec_attach(old(self)@, id, handle),
            !r ==> final(self)@ == old(self)@,
            r ==> contains_id(final(self)@, id) && client_of(final(self)@, id) == (Client {
                sender: Some(handle),
                authenticated: client_of(old(self)@, id).authenticated,
                second_chance: client_of(old(self)@, id).second_chance,
            }),
    {
        match self.find(id) {
            Some(i) => {
                let c = self.entries[i].1;
                self.entries[i] = (
                    id,
                    Client {
                        sender: Some(handle),
                        authenticated: c.authenticated,
                        second_chance: c.second_chance,
                    },
                );
                proof {
                    let ghost old_s = old(self)@;
                    let ghost s = self@;
                    assert(entries_sorted(s)) by {
                        assert(forall|p: int, q: int|
                            0 <= p < q < s.len() ==> s[p].0 == old_s[p].0 && s[q].0
                                == old_s[q].0);
                    }
                    lemma_idx_of_unique(s, id, i as int);
                }
                true
            },
            None => false,
        }
    }

    /// Raises the authenticated flag of `id`; an unknown id is reported
    /// back for the boundary to turn into a rejection.
    pub fn set_authenticated(&mut self, id: u64) -> (r: Result<(), NotFound>)
        requires
            old(self).wf(),
        ensures
            final(self).wf(),
            final(self).spec_next_id() == old(self).spec_next_id(),
            r is Ok <==> contains_id(old(self)@, id),
            r is Ok ==> final(self)@ == spec_set_authenticated(old(self)@, id),
            r is Err ==> final(self)@ == old(self)@,
            r is Ok ==> contains_id(final(self)@, id) && client_of(final(self)@, id) == (Client {
                sender: client_of(old(self)@, id).sender,
                authenticated: true,
                second_chance: client_of(old(self)@, id).second_chance,
            }),
    {
        match self.find(id) {
            Some(i) => {
                let c = self.entries[i].1;
                self.entries[i] = (
                    id,
                    Client {
                        sender: c.sender,
                        authenticated: true,
                        second_chance: c.second_chance,
                    },
                );
                proof {
                    let ghost old_s = old(self)@;
                    let ghost s = self@;
                    assert(entries_sorted(s)) by {
                        assert(forall|p: int, q: int|
                            0 <= p < q < s.len() ==> s[p].0 == old_s[p].0 && s[q].0
                                == old_s[q].0);
                    }
                    lemma_idx_of_unique(s, id, i as int);
                }
                Ok(())
            },
            None => Err(NotFound),
        }
    }

    /// Whether inbound requests from `id` may be acted on; an id the
    /// registry does not hold counts as not authenticated.
    pub fn is_authenticated(&self, id: u64) -> (r: bool)
        requires
            self.wf(),
        ensures
            r == spec_is_authenticated(self@, id),
    {
        match self.find(id) {
            Some(i) => self.entries[i].1.authenticated,
            None => false,
        }
    }

    /// Drops the entry under `id`. Removal is idempotent: an id already
    /// gone is left gone.
    pub fn remove(&mut self, id: u64)
        requires
            old(self).wf(),
        ensures
            final(self).wf(),
            final(self).spec_next_id() == old(self).spec_next_id(),
            final(self)@ == spec_remove(old(self)@, id),
            !contains_id(final(self)@, id),
    {
        match self.find(id) {
            Some(i) => {
                self.entries.remove(i);
                proof {
                    let ghost old_s = old(self)@;
                    let ghost s = self@;
                    assert(entries_sorted(s)) by {
                        assert forall|p: int, q: int| 0 <= p < q < s.len() implies s[p].0
                            < s[q].0 by {
                            let p0 = if p < i as int {
                                p
                            } else {
                                p + 1
                            };
                            let q0 = if q < i as int {
                                q
                            } else {
                                q + 1
                            };
                            assert(s[p] == old_s[p0] && s[q] == old_s[q0]);
                            assert(0 <= p0 < q0 < old_s.len());
                        }
                    }
                    assert(!contains_id(s, id)) by {
                        assert forall|j: int| 0 <= j < s.len() implies s[j].0 != id by {
                            let j0 = if j < i as int { j } else { j + 1 };
                            assert(s[j] == old_s[j0]);
                            if j0 != i as int {
                                lemma_idx_of_unique(old_s, id, i as int);
                                if old_s[j0].0 == id {
                                    lemma_idx_of_unique(old_s, id, j0);
                                }
                            }
                        }
                    }
                }
            },
            None => (),
        }
    }

    /// A consistent point-in-time snapshot of every outbound handle the
    /// registry holds, in registry order: one handle per entry that has
    /// one, and none from entries already removed.
    pub fn snapshot_live_senders(&self) -> (r: Vec<Sender>)
        requires
            self.wf(),
        ensures
            r@ == live_senders(self@),
    {
        let n = self.entries.len();
        let mut out: Vec<Sender> = Vec::new();
        let mut i: usize = 0;
        while i < n
            invariant
                n == self@.len(),
                i <= n,
                out@ == live_senders(self@.take(i as int)),
            decreases n - i,
        {
            proof {
                assert(self@.take(i + 1 as int).drop_last() =~= self@.take(i as int));
                assert(self@.take(i + 1 as int).last() == self@[i as int]);
            }
            match self.entries[i].1.sender {
                Some(h) => out.push(h),
                None => (),
            }
            i = i + 1;
        }
        proof {
            assert(self@.take(n as int) =~= self@);
        }
        out
    }

    /// How many entries the registry holds.
    pub fn count(&self) -> (r: usize)
        requires
            self.wf(),
        ensures
            r == self@.len(),
    {
        self.entries.len()
    }

    /// The marking pass of the collector: spends the grace of every entry
    /// without an outbound path and returns the ids whose grace was
    /// already spent, for the removal pass.
    pub fn gc_mark(&mut self) -> (marked: Vec<u64>)
        requires
            old(self).wf(),
        ensures
            final(self).wf(),
            final(self).spec_next_id() == old(self).spec_next_id(),
            final(self)@ == spec_gc_mark(old(self)@),
            marked@ == spec_marked_ids(old(self)@),
    {
        let ghost old_s = old(self)@;
        let n = self.entries.len();
        let mut marked: Vec<u64> = Vec::new();
        let mut i: usize = 0;
        while i < n
            invariant
                old(self).wf(),
                n == old_s.len(),
                old_s == old(self)@,
                i <= n,
                self@.len() == n,
                self.spec_next_id() == old(self).spec_next_id(),
                forall|j: int| 0 <= j < i ==> self@[j] == gc_flip(old_s[j]),
                forall|j: int| i <= j < n ==> self@[j] == old_s[j],
                marked@ == spec_marked_ids(old_s.take(i as int)),
            decreases n - i,
        {
            proof {
                assert(old_s.take(i + 1 as int).drop_last() =~= old_s.take(i as int));
                assert(old_s.take(i + 1 as int).last() == old_s[i as int]);
            }
            let e = self.entries[i];
            match e.1.sender {
                None => {
                    if e.1.second_chance {
                        self.entries[i] = (
                            e.0,
                            Client {
                                sender: None,
                                authenticated: e.1.authenticated,
                                second_chance: false,
                            },
                        );
                    } else {
                        marked.push(e.0);
                    }
                },
                Some(_) => (),
            }
            i = i + 1;
        }
        proof {
            assert(old_s.take(n as int) =~= old_s);
            assert(self@ =~= spec_gc_mark(old_s));
            assert(entries_sorted(self@)) by {
                assert(forall|p: int| 0 <= p < n ==> #[trigger] self@[p].0 == old_s[p].0);
            }
        }
        marked
    }

    /// One whole sweep of the collector: entries with no outbound path
    /// lose their grace the first time and their entry the second time;
    /// entries with an outbound path are never touched. Returns how many
    /// entries were evicted.
    pub fn collect_garbage(&mut self) -> (removed: usize)
        requires
            old(self).wf(),
        ensures
            final(self).wf(),
            final(self).spec_next_id() == old(self).spec_next_id(),
            final(self)@ == spec_gc_sweep(old(self)@),
            removed == old(self)@.len() - spec_gc_sweep(old(self)@).len(),
    {
        let ghost old_s = old(self)@;
        let n = self.entries.len();
        let mut kept: Vec<(u64, Client)> = Vec::new();
        let mut i: usize = 0;
        while i < n
            invariant
                old(self).wf(),
                n == old_s.len(),
                old_s == old(self)@,
                self@ == old_s,
                i <= n,
                kept@ == spec_gc_sweep(old_s.take(i as int)),
                kept@.len() <= i,
            decreases n - i,
        {
            proof {
                assert(old_s.take(i + 1 as int).drop_last() =~= old_s.take(i as int));
                assert(old_s.take(i + 1 as int).last() == old_s[i as int]);
            }
            let e = self.entries[i];
            match e.1.sender {
                None => {
                    if e.1.second_chance {
                        kept.push(
                            (
                                e.0,
                                Client {
                                    sender: None,
                                    authenticated: e.1.authenticated,
                                    second_chance: false,
                                },
                            ),
                        );
                    }
                },
                Some(_) => {
                    kept.push(e);
                },
            }
            i = i + 1;
        }
        proof {
            assert(old_s.take(n as int) =~= old_s);
        }
        let removed = n - kept.len();
        self.entries = kept;
        proof {
            lemma_gc_sweep_sorted(old_s);
        }
        removed
    }
}

/// Sortedness survives a sweep: the kept entries are a subsequence with
/// their ids unchanged.
proof fn lemma_gc_sweep_sorted(s: Seq<(u64, Client)>)
    requires
        entries_sorted(s),
    ensures
        entries_sorted(spec_gc_sweep(s)),
        forall|i: int|
            0 <= i < spec_gc_sweep(s).len() ==> exists|j: int|
                0 <= j < s.len() && #[trigger] spec_gc_sweep(s)[i].0 == s[j].0,
        spec_gc_sweep(s).len() > 0 && s.len() > 0 ==> spec_gc_sweep(s).last().0 <= s.last().0,
    decreases s.len(),
{
    if s.len() > 0 {
        let rest = s.drop_last();
        assert(entries_sorted(rest));
        lemma_gc_sweep_sorted(rest);
        let out = spec_gc_sweep(s);
        let out_rest = spec_gc_sweep(rest);
        if gc_doomed(s.last()) {
        } else {
            assert(out == out_rest.push(gc_flip(s.last())));
            assert(gc_flip(s.last()).0 == s.last().0);
            assert forall|i: int, j: int| 0 <= i < j < out.len() implies out[i].0 < out[j].0 by {
                if j < out.len() - 1 {
                    assert(out[i] == out_rest[i] && out[j] == out_rest[j]);
                } else {
                    assert(out[j] == gc_flip(s.last()));
                    let w = choose|w: int| 0 <= w < rest.len() && out_rest[i].0 == rest[w].0;
                    assert(rest[w].0 < s.last().0);
                }
            }
        }
    }
}

/// Removals applied one id at a time, first id first.
pub open spec fn spec_remove_all(s: Seq<(u64, Client)>, ids: Seq<u64>) -> Seq<(u64, Client)>
    decreases ids.len(),
{
    if ids.len() == 0 {
        s
    } else {
        spec_remove_all(spec_remove(s, ids[0]), ids.skip(1))
    }
}

/// Removal keeps the strict order of the remaining entries.
proof fn lemma_remove_sorted(s: Seq<(u64, Client)>, id: u64)
    requires
        entries_sorted(s),
    ensures
        entries_sorted(spec_remove(s, id)),
    decreases s.len(),
{
    if contains_id(s, id) {
        let i = idx_of(s, id);
        assert(0 <= i < s.len() && s[i].0 == id);
        s.remove_ensures(i);
        let out = s.remove(i);
        assert forall|p: int, q: int| 0 <= p < q < out.len() implies out[p].0 < out[q].0 by {
            let p0 = if p < i {
                p
            } else {
                p + 1
            };
            let q0 = if q < i {
                q
            } else {
                q + 1
            };
            assert(out[p] == s[p0] && out[q] == s[q0]);
            assert(0 <= p0 < q0 < s.len());
        }
    }
}

/// Removing an id that is not the last entry's commutes with keeping the
/// last entry.
proof fn lemma_remove_push(s: Seq<(u64, Client)>, x: (u64, Client), id: u64)
    requires
        entries_sorted(s.push(x)),
        x.0 != id,
    ensures
        spec_remove(s.push(x), id) == spec_remove(s, id).push(x),
{
    let t = s.push(x);
    assert forall|p: int, q: int| 0 <= p < q < s.len() implies s[p].0 < s[q].0 by {
        assert(s[p] == t[p] && s[q] == t[q]);
    }
    if contains_id(t, id) {
        let i = idx_of(t, id);
        assert(0 <= i < t.len() && t[i].0 == id);
        assert(i < s.len()) by {
            assert(t[t.len() - 1] == x);
        }
        assert(s[i] == t[i]);
        lemma_idx_of_unique(s, id, i);
        t.remove_ensures(i);
        s.remove_ensures(i);
        assert(t.remove(i) =~= s.remove(i).push(x));
    } else {
        if contains_id(s, id) {
            let j = idx_of(s, id);
            assert(t[j] == s[j]);
            assert(contains_id(t, id));
        }
    }
}

/// Every marked id is the id of some entry.
proof fn lemma_marked_ids_are_ids(s: Seq<(u64, Client)>)
    ensures
        forall|k: int|
            0 <= k < spec_marked_ids(s).len() ==> exists|j: int|
                0 <= j < s.len() && #[trigger] spec_marked_ids(s)[k] == s[j].0,
    decreases s.len(),
{
    if s.len() > 0 {
        let rest = s.drop_last();
        lemma_marked_ids_are_ids(rest);
        assert forall|k: int| 0 <= k < spec_marked_ids(s).len() implies exists|j: int|
            0 <= j < s.len() && #[trigger] spec_marked_ids(s)[k] == s[j].0 by {
            let m = spec_marked_ids(s);
            let mr = spec_marked_ids(rest);
            if gc_doomed(s.last()) && k == m.len() - 1 {
                assert(m[k] == s[s.len() - 1].0);
            } else {
                assert(m[k] == mr[k]);
                let j = choose|j: int| 0 <= j < rest.len() && mr[k] == rest[j].0;
                assert(s[j] == rest[j]);
            }
        }
    }
}

/// Removing a batch of ids that the last entry does not carry commutes
/// with keeping the last entry.
proof fn lemma_remove_all_push(s: Seq<(u64, Client)>, x: (u64, Client), ids: Seq<u64>)
    requires
        entries_sorted(s.push(x)),
        forall|k: int| 0 <= k < ids.len() ==> #[trigger] ids[k] != x.0,
    ensures
        spec_remove_all(s.push(x), ids) == spec_remove_all(s, ids).push(x),
    decreases ids.len(),
{
    if ids.len() > 0 {
        assert forall|p: int, q: int| 0 <= p < q < s.len() implies s[p].0 < s[q].0 by {
            assert(s[p] == s.push(x)[p] && s[q] == s.push(x)[q]);
        }
        lemma_remove_push(s, x, ids[0]);
        lemma_remove_sorted(s, ids[0]);
        let s1 = spec_remove(s, ids[0]);
        assert(entries_sorted(s1.push(x))) by {
            if contains_id(s, ids[0]) {
                let i = idx_of(s, ids[0]);
                s.remove_ensures(i);
                let t = s1.push(x);
                assert forall|p: int, q: int| 0 <= p < q < t.len() implies t[p].0 < t[q].0 by {
                    let big = s.push(x);
                    if q < t.len() - 1 {
                        assert(t[p] == s1[p] && t[q] == s1[q]);
                    } else {
                        assert(t[q] == x);
                        let p0 = if p < i {
                            p
                        } else {
                            p + 1
                        };
                        assert(t[p] == s[p0]);
                        assert(big[p0] == s[p0] && big[big.len() - 1] == x);
                        assert(0 <= p0 < big.len() - 1);
                    }
                }
            }
        }
        assert(forall|k: int| 0 <= k < ids.skip(1).len() ==> #[trigger] ids.skip(1)[k] != x.0);
        lemma_remove_all_push(s1, x, ids.skip(1));
    }
}

/// The two passes compose to one sweep: after the marking pass, removing
/// exactly the ids it returned, first to last, leaves what a single
/// sweep leaves. The collector may therefore mark under one lock and
/// remove under another without changing the outcome.
pub proof fn lemma_mark_then_remove(s: Seq<(u64, Client)>)
    requires
        entries_sorted(s),
    ensures
        spec_remove_all(spec_gc_mark(s), spec_marked_ids(s)) == spec_gc_sweep(s),
    decreases s.len(),
{
    if s.len() == 0 {
        assert(spec_gc_mark(s) =~= Seq::<(u64, Client)>::empty());
        assert(spec_marked_ids(s) =~= Seq::<u64>::empty());
        assert(spec_gc_sweep(s) =~= Seq::<(u64, Client)>::empty());
    } else {
        let rest = s.drop_last();
        let e = s.last();
        assert(entries_sorted(rest));
        lemma_mark_then_remove(rest);
        assert(spec_gc_mark(s) =~= spec_gc_mark(rest).push(gc_flip(e)));
        assert(entries_sorted(spec_gc_mark(s))) by {
            assert(forall|p: int|
                0 <= p < s.len() ==> #[trigger] spec_gc_mark(s)[p].0 == s[p].0);
        }
        assert(entries_sorted(spec_gc_mark(rest))) by {
            assert(forall|p: int|
                0 <= p < rest.len() ==> #[trigger] spec_gc_mark(rest)[p].0 == rest[p].0);
        }
        lemma_marked_ids_are_ids(rest);
        assert(forall|k: int|
            0 <= k < spec_marked_ids(rest).len() ==> #[trigger] spec_marked_ids(rest)[k]
                != e.0) by {
            assert forall|k: int|
                0 <= k < spec_marked_ids(rest).len() implies #[trigger] spec_marked_ids(
                rest,
            )[k] != e.0 by {
                let j = choose|j: int|
                    0 <= j < rest.len() && spec_marked_ids(rest)[k] == rest[j].0;
                assert(rest[j] == s[j]);
                assert(s[j].0 < s[s.len() - 1].0);
            }
        }
        if gc_doomed(e) {
            let m_ids = spec_marked_ids(rest);
            let full_ids = spec_marked_ids(s);
            assert(full_ids =~= m_ids.push(e.0));
            // removing the rest's marked ids leaves the rest's sweep, with
            // the last entry kept along for the ride
            lemma_remove_all_push(spec_gc_mark(rest), gc_flip(e), m_ids);
            let x = spec_remove_all(spec_gc_mark(s), m_ids);
            assert(x == spec_gc_sweep(rest).push(gc_flip(e)));
            // the batch splits as: the rest's ids first, the last id after
            lemma_remove_all_split(spec_gc_mark(s), full_ids);
            assert(full_ids.take(full_ids.len() - 1) =~= m_ids);
            assert(full_ids.last() == e.0);
            assert(seq![e.0].skip(1) =~= Seq::<u64>::empty());
            assert(spec_remove_all(x, seq![e.0]) == spec_remove_all(
                spec_remove(x, e.0),
                Seq::<u64>::empty(),
            ));
            // removing the last id drops exactly the entry kept along
            let swept_rest = spec_gc_sweep(rest);
            lemma_gc_sweep_sorted(rest);
            assert(!contains_id(swept_rest, e.0)) by {
                if contains_id(swept_rest, e.0) {
                    let i = idx_of(swept_rest, e.0);
                    assert(0 <= i < swept_rest.len() && swept_rest[i].0 == e.0);
                    let j = choose|j: int| 0 <= j < rest.len() && swept_rest[i].0 == rest[j].0;
                    assert(rest[j] == s[j]);
                    assert(s[j].0 < s[s.len() - 1].0);
                }
            }
            assert(gc_flip(e).0 == e.0);
            assert(contains_id(x, e.0)) by {
                assert(x[x.len() - 1].0 == e.0);
            }
            assert(idx_of(x, e.0) == x.len() - 1) by {
                let i = idx_of(x, e.0);
                assert(0 <= i < x.len() && x[i].0 == e.0);
                if i < x.len() - 1 {
                    assert(swept_rest[i].0 == e.0);
                }
            }
            x.remove_ensures(x.len() - 1);
            assert(spec_remove(x, e.0) =~= swept_rest);
            assert(spec_gc_sweep(s) == swept_rest);
        } else {
            assert(spec_marked_ids(s) =~= spec_marked_ids(rest));
            assert(spec_gc_sweep(s) =~= spec_gc_sweep(rest).push(gc_flip(e)));
            lemma_remove_all_push(spec_gc_mark(rest), gc_flip(e), spec_marked_ids(rest));
        }
    }
}

/// Removing a batch is removing its front id, then the rest - stated for
/// the batch split at an arbitrary point.
proof fn lemma_remove_all_split(s: Seq<(u64, Client)>, ids: Seq<u64>)
    ensures
        ids.len() > 0 ==> spec_remove_all(s, ids) == spec_remove_all(
            spec_remove_all(s, ids.take(ids.len() - 1)),
            seq![ids.last()],
        ),
    decreases ids.len(),
{
    if ids.len() == 1 {
        assert(ids.take(0) =~= Seq::<u64>::empty());
        assert(ids.skip(1) =~= Seq::<u64>::empty());
        assert(seq![ids.last()] =~= ids);
    } else if ids.len() > 1 {
        let head = ids[0];
        let tail = ids.skip(1);
        lemma_remove_all_split(spec_remove(s, head), tail);
        assert(tail.take(tail.len() - 1) =~= ids.take(ids.len() - 1).skip(1));
        assert(tail.last() == ids.last());
        assert(ids.take(ids.len() - 1)[0] == head);
        assert(ids.take(ids.len() - 1).len() > 0);
    }
}

/// Every id a well-formed registry holds is held once: registration ids
/// are pairwise distinct, however many registrations and removals have
/// gone before.
pub proof fn lemma_registered_ids_distinct(r: &ClientRegistry)
    requires
        r.wf(),
    ensures
        forall|i: int, j: int| 0 <= i < j < r@.len() ==> r@[i].0 != r@[j].0,
{
}

/// A removed id cannot be revived: after `remove(id)`, the registry no
/// longer holds `id`, so a later `attach_sender(id, _)` reports failure
/// and changes nothing, whatever handle it offers.
pub proof fn lemma_no_resurrection(s: Seq<(u64, Client)>, id: u64)
    requires
        entries_sorted(s),
    ensures
        !contains_id(spec_remove(s, id), id),
{
    if contains_id(s, id) {
        let i = idx_of(s, id);
        assert(0 <= i < s.len() && s[i].0 == id);
        let out = s.remove(i);
        s.remove_ensures(i);
        if contains_id(out, id) {
            let j = idx_of(out, id);
            assert(0 <= j < out.len() && out[j].0 == id);
            let j0 = if j < i {
                j
            } else {
                j + 1
            };
            assert(out[j] == s[j0]);
            assert(j0 != i);
            if j0 < i {
                assert(s[j0].0 < s[i].0);
            } else {
                assert(s[i].0 < s[j0].0);
            }
        }
    }
}

/// A broadcast snapshot covers exactly the entries that are live at
/// snapshot time: the handle of every entry that has one is in the
/// snapshot, and everything in the snapshot is the handle of some entry
/// still present - nothing from an entry removed before the snapshot.
pub proof fn lemma_snapshot_covers_live(s: Seq<(u64, Client)>, i: int)
    requires
        0 <= i < s.len(),
        s[i].1.sender is Some,
    ensures
        live_senders(s).contains(s[i].1.sender->0),
    decreases s.len(),
{
    if i == s.len() - 1 {
        assert(live_senders(s).last() == s[i].1.sender->0);
    } else {
        lemma_snapshot_covers_live(s.drop_last(), i);
        assert(s.drop_last()[i] == s[i]);
        let h = s[i].1.sender->0;
        let k = choose|k: int| 0 <= k < live_senders(s.drop_last()).len() && live_senders(
            s.drop_last(),
        )[k] == h;
        match s.last().1.sender {
            Some(_) => {
                assert(live_senders(s)[k] == h);
            },
            None => {
                assert(live_senders(s)[k] == h);
            },
        }
    }
}

/// Everything in a snapshot comes from an entry present at snapshot time.
pub proof fn lemma_snapshot_only_live(s: Seq<(u64, Client)>, h: Sender)
    requires
        live_senders(s).contains(h),
    ensures
        exists|i: int| 0 <= i < s.len() && #[trigger] s[i].1.sender == Some(h),
    decreases s.len(),
{
    if s.len() > 0 {
        let rest = s.drop_last();
        match s.last().1.sender {
            Some(g) => {
                if g == h {
                    assert(s[s.len() - 1].1.sender == Some(h));
                } else {
                    let k = choose|k: int|
                        0 <= k < live_senders(s).len() && live_senders(s)[k] == h;
                    assert(live_senders(rest)[k] == h);
                    lemma_snapshot_only_live(rest, h);
                    let i = choose|i: int|
                        0 <= i < rest.len() && #[trigger] rest[i].1.sender == Some(h);
                    assert(s[i].1.sender == Some(h));
                }
            },
            None => {
                lemma_snapshot_only_live(rest, h);
                let i = choose|i: int|
                    0 <= i < rest.len() && #[trigger] rest[i].1.sender == Some(h);
                assert(s[i].1.sender == Some(h));
            },
        }
    }
}

/// No handle appears twice in a snapshot, as long as no two entries were
/// attached the same handle - which holds when the transport layer keys
/// each channel by a fresh token.
pub proof fn lemma_snapshot_no_duplicates(s: Seq<(u64, Client)>)
    requires
        forall|i: int, j: int|
            0 <= i < j < s.len() && s[i].1.sender is Some && s[j].1.sender is Some
                ==> s[i].1.sender != s[j].1.sender,
    ensures
        forall|p: int, q: int|
            0 <= p < q < live_senders(s).len() ==> live_senders(s)[p] != live_senders(s)[q],
    decreases s.len(),
{
    if s.len() > 0 {
        let rest = s.drop_last();
        assert(forall|i: int| 0 <= i < rest.len() ==> rest[i] == #[trigger] s[i]);
        lemma_snapshot_no_duplicates(rest);
        match s.last().1.sender {
            Some(h) => {
                assert(!live_senders(rest).contains(h)) by {
                    if live_senders(rest).contains(h) {
                        lemma_snapshot_only_live(rest, h);
                        let i = choose|i: int|
                            0 <= i < rest.len() && #[trigger] rest[i].1.sender == Some(h);
                        assert(s[i].1.sender == Some(h));
                        assert(s[s.len() - 1].1.sender == Some(h));
                    }
                }
                let out = live_senders(s);
                assert(out == live_senders(rest).push(h));
                assert forall|p: int, q: int| 0 <= p < q < out.len() implies out[p] != out[q] by {
                    if q < out.len() - 1 {
                        assert(out[p] == live_senders(rest)[p] && out[q] == live_senders(rest)[q]);
                    } else {
                        assert(out[q] == h);
                        assert(out[p] == live_senders(rest)[p]);
                        assert(live_senders(rest).contains(out[p]));
                    }
                }
            },
            None => {},
        }
    }
}

/// The two-chance policy, as one law: an entry with no outbound path and
/// its grace intact survives exactly one sweep - the first sweep keeps it
/// with its grace spent, and a second sweep, with still no outbound path
/// attached in between, drops it.
pub proof fn lemma_second_chance(s: Seq<(u64, Client)>, id: u64)
    requires
        entries_sorted(s),
        contains_id(s, id),
        client_of(s, id).sender is None,
        client_of(s, id).second_chance,
    ensures
        contains_id(spec_gc_sweep(s), id),
        client_of(spec_gc_sweep(s), id).sender is None,
        !client_of(spec_gc_sweep(s), id).second_chance,
        !contains_id(spec_gc_sweep(spec_gc_sweep(s)), id),
    decreases s.len(),
{
    lemma_gc_sweep_sorted(s);
    lemma_sweep_keeps_graced(s, id);
    let s1 = spec_gc_sweep(s);
    lemma_gc_sweep_sorted(s1);
    lemma_sweep_drops_doomed(s1, id);
}

/// First sweep of a graced, path-less entry: kept, grace spent.
proof fn lemma_sweep_keeps_graced(s: Seq<(u64, Client)>, id: u64)
    requires
        entries_sorted(s),
        contains_id(s, id),
        client_of(s, id).sender is None,
        client_of(s, id).second_chance,
    ensures
        contains_id(spec_gc_sweep(s), id),
        client_of(spec_gc_sweep(s), id).sender is None,
        !client_of(spec_gc_sweep(s), id).second_chance,
    decreases s.len(),
{
    lemma_gc_sweep_sorted(s);
    let i = idx_of(s, id);
    if i == s.len() - 1 {
        let out = spec_gc_sweep(s);
        assert(out.last() == gc_flip(s.last()));
        lemma_idx_of_unique(out, id, out.len() - 1);
    } else {
        let rest = s.drop_last();
        assert(entries_sorted(rest));
        assert(rest[i] == s[i]);
        lemma_idx_of_unique(rest, id, i);
        lemma_sweep_keeps_graced(rest, id);
        lemma_gc_sweep_sorted(rest);
        let out_rest = spec_gc_sweep(rest);
        let j = idx_of(out_rest, id);
        let out = spec_gc_sweep(s);
        if gc_doomed(s.last()) {
            assert(out == out_rest);
        } else {
            assert(out == out_rest.push(gc_flip(s.last())));
            assert(out[j] == out_rest[j]);
            lemma_gc_sweep_sorted(s);
            lemma_idx_of_unique(out, id, j);
        }
    }
}

/// Second sweep of a path-less entry whose grace is spent: dropped.
proof fn lemma_sweep_drops_doomed(s: Seq<(u64, Client)>, id: u64)
    requires
        entries_sorted(s),
        contains_id(s, id) ==> client_of(s, id).sender is None && !client_of(
            s,
            id,
        ).second_chance,
    ensures
        !contains_id(spec_gc_sweep(s), id),
    decreases s.len(),
{
    if s.len() > 0 {
        let rest = s.drop_last();
        assert(entries_sorted(rest));
        if contains_id(rest, id) {
            let i = idx_of(rest, id);
            assert(s[i] == rest[i]);
            lemma_idx_of_unique(s, id, i);
            assert(client_of(s, id) == rest[i].1);
        }
        lemma_sweep_drops_doomed(rest, id);
        let out = spec_gc_sweep(s);
        let out_rest = spec_gc_sweep(rest);
        if gc_doomed(s.last()) {
            assert(out == out_rest);
        } else {
            assert(out == out_rest.push(gc_flip(s.last())));
            if s.last().0 == id {
                lemma_idx_of_unique(s, id, s.len() - 1);
                assert(client_of(s, id) == s.last().1);
                assert(gc_doomed(s.last()));
            }
            if contains_id(out, id) {
                let j = idx_of(out, id);
                if j < out.len() - 1 {
                    assert(out_rest[j].0 == id);
                    assert(contains_id(out_rest, id));
                }
            }
        }
    }
}

} // verus!
