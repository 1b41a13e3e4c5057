//! The store of handshake identifiers seen of late, by which a replayed
//! handshake is told from a fresh one.
//!
//! The store does not read a clock: whoever asks says what time it is. An
//! identifier is kept for the store's horizon and then forgotten the next
//! time anyone asks; where the store is full, the entry that came first makes
//! room. Sharing a store between sessions is the caller's business: every
//! operation takes it by `&mut`.

use vstd::prelude::*;
use crate::bytes::same_bytes;

verus! {

/// An identifier and the time it was first seen at.
pub struct Seen {
    /// The identifier.
    pub id: Seq<u8>,
    /// When it was seen, on the caller's clock.
    pub at: u64,
}

/// Whether an entry seen at `seen` is still kept at `now`: less than the
/// horizon has passed since. An entry from the future, on a clock that was
/// set back, is kept.
pub open spec fn live(seen: u64, now: u64, horizon: u64) -> bool {
    now - seen < horizon
}

/// The entries that are still kept at `now`, in the order they came in.
pub open spec fn kept(entries: Seq<Seen>, now: u64, horizon: u64) -> Seq<Seen> {
    entries.filter(|e: Seen| live(e.at, now, horizon))
}

/// Whether `id` is among the entries.
pub open spec fn known(entries: Seq<Seen>, id: Seq<u8>) -> bool {
    exists|i: int| 0 <= i < entries.len() && (#[trigger] entries[i]).id == id
}

/// Whether no identifier occurs twice among the entries.
pub open spec fn distinct(entries: Seq<Seen>) -> bool {
    forall|i: int, j: int|
        0 <= i < j < entries.len() ==> (#[trigger] entries[i]).id != (#[trigger] entries[j]).id
}

/// What a [`Dedup`] stands for.
pub struct DedupView {
    /// The entries, in the order they came in.
    pub entries: Seq<Seen>,
    /// For how long an entry is kept.
    pub horizon: u64,
    /// How many entries are kept at most; at least one.
    pub capacity: int,
}

impl DedupView {
    /// What holds of every store: it is not over its capacity, and it holds
    /// no identifier twice.
    pub open spec fn wf(self) -> bool {
        &&& 1 <= self.capacity
        &&& self.entries.len() <= self.capacity
        &&& distinct(self.entries)
    }

    /// Whether presenting `id` at `now` is a replay: the identifier is among
    /// the entries still kept.
    pub open spec fn replayed(self, id: Seq<u8>, now: u64) -> bool {
        known(kept(self.entries, now, self.horizon), id)
    }

    /// The store after `id` was presented at `now`. Entries past the horizon
    /// are dropped. A replay changes nothing else; a fresh identifier comes
    /// in last, at the cost of the first entry where the store is full.
    pub open spec fn presented(self, id: Seq<u8>, now: u64) -> DedupView {
        let still = kept(self.entries, now, self.horizon);
        let room = if still.len() >= self.capacity {
            still.drop_first()
        } else {
            still
        };
        DedupView {
            entries: if known(still, id) {
                still
            } else {
                room.push(Seen { id, at: now })
            },
            ..self
        }
    }
}

/// What is kept is part of what was there, in the same order: no more
/// entries, none twice that was not twice before, each still live, and every
/// live entry among them.
pub proof fn lemma_kept(entries: Seq<Seen>, now: u64, horizon: u64)
    ensures
        kept(entries, now, horizon).len() <= entries.len(),
        distinct(entries) ==> distinct(kept(entries, now, horizon)),
        forall|i: int|
            0 <= i < kept(entries, now, horizon).len() ==> live(
                (#[trigger] kept(entries, now, horizon)[i]).at,
                now,
                horizon,
            ),
        forall|id: Seq<u8>|
            known(kept(entries, now, horizon), id) ==> #[trigger] known(entries, id),
        forall|i: int|
            0 <= i < entries.len() && live((#[trigger] entries[i]).at, now, horizon) ==> known(
                kept(entries, now, horizon),
                entries[i].id,
            ),
    decreases entries.len(),
{
    reveal(Seq::filter);
    let pred = |e: Seen| live(e.at, now, horizon);
    let k = kept(entries, now, horizon);
    if entries.len() > 0 {
        let front = entries.drop_last();
        let last = entries.last();
        let kf = kept(front, now, horizon);
        lemma_kept(front, now, horizon);
        assert(k == if pred(last) {
            kf.push(last)
        } else {
            kf
        });
        assert forall|id: Seq<u8>| known(k, id) implies #[trigger] known(entries, id) by {
            let i = choose|i: int| 0 <= i < k.len() && (#[trigger] k[i]).id == id;
            if i < kf.len() {
                assert(kf[i].id == id);
                assert(known(kf, id));
                assert(known(front, id));
                let j = choose|j: int| 0 <= j < front.len() && (#[trigger] front[j]).id == id;
                assert(entries[j] == front[j]);
            } else {
                assert(entries[entries.len() - 1].id == id);
            }
        }
        assert forall|i: int|
            0 <= i < entries.len() && live((#[trigger] entries[i]).at, now, horizon) implies known(
            k,
            entries[i].id,
        ) by {
            if i < front.len() {
                assert(front[i] == entries[i]);
                let j = choose|j: int|
                    0 <= j < kf.len() && (#[trigger] kf[j]).id == entries[i].id;
                assert(k[j].id == entries[i].id);
            } else {
                assert(k[k.len() - 1].id == entries[i].id);
            }
        }
        if distinct(entries) {
            assert(distinct(front)) by {
                assert forall|i: int, j: int| 0 <= i < j < front.len() implies (
                #[trigger] front[i]).id != (#[trigger] front[j]).id by {
                    assert(front[i] == entries[i] && front[j] == entries[j]);
                }
            }
            assert forall|i: int, j: int| 0 <= i < j < k.len() implies (#[trigger] k[i]).id != (
            #[trigger] k[j]).id by {
                if j < kf.len() {
                    assert(k[i] == kf[i] && k[j] == kf[j]);
                } else {
                    assert(k[i] == kf[i]);
                    assert(known(kf, kf[i].id));
                    assert(known(front, kf[i].id));
                    let m = choose|m: int|
                        0 <= m < front.len() && (#[trigger] front[m]).id == kf[i].id;
                    assert(entries[m] == front[m]);
                    assert(entries[m].id != entries[entries.len() - 1].id);
                }
            }
        }
    }
}

/// Presenting an identifier keeps a store well formed, leaves only live
/// entries in it, and leaves the identifier among them.
pub proof fn lemma_presented(v: DedupView, id: Seq<u8>, now: u64)
    requires
        v.wf(),
    ensures
        v.presented(id, now).wf(),
        known(v.presented(id, now).entries, id),
        v.horizon > 0 ==> forall|i: int|
            0 <= i < v.presented(id, now).entries.len() ==> live(
                (#[trigger] v.presented(id, now).entries[i]).at,
                now,
                v.horizon,
            ),
{
    lemma_kept(v.entries, now, v.horizon);
    let still = kept(v.entries, now, v.horizon);
    let after = v.presented(id, now).entries;
    if !known(still, id) {
        let room = if still.len() >= v.capacity {
            still.drop_first()
        } else {
            still
        };
        assert(after[after.len() - 1].id == id);
        assert forall|i: int, j: int| 0 <= i < j < after.len() implies (#[trigger] after[i]).id
            != (#[trigger] after[j]).id by {
            if still.len() >= v.capacity {
                assert(room[i] == still[i + 1]);
                if j < room.len() {
                    assert(room[j] == still[j + 1]);
                }
            } else {
                assert(room[i] == still[i]);
            }
        }
        if v.horizon > 0 {
            assert forall|i: int| 0 <= i < after.len() implies live(
                (#[trigger] after[i]).at,
                now,
                v.horizon,
            ) by {
                if i < room.len() {
                    if still.len() >= v.capacity {
                        assert(room[i] == still[i + 1]);
                    } else {
                        assert(room[i] == still[i]);
                    }
                }
            }
        }
    }
}

/// An identifier that was presented is a replay when it is presented again
/// before the horizon has passed.
pub proof fn lemma_second_is_replay(v: DedupView, id: Seq<u8>, first: u64, second: u64)
    requires
        v.wf(),
        live(first, second, v.horizon),
        !v.replayed(id, first),
    ensures
        v.presented(id, first).replayed(id, second),
{
    lemma_presented(v, id, first);
    let after = v.presented(id, first).entries;
    lemma_kept(v.entries, first, v.horizon);
    lemma_kept(after, second, v.horizon);
    let last = after.len() - 1;
    assert(after[last] == Seen { id, at: first });
}

/// An entry of the store.
#[derive(Clone, Copy)]
struct Entry {
    id: [u8; 32],
    seen: u64,
}

impl Entry {
    spec fn view(self) -> Seen {
        Seen { id: self.id@, at: self.seen }
    }
}

/// What the entries stand for.
spec fn views(entries: Seq<Entry>) -> Seq<Seen> {
    entries.map_values(|e: Entry| e.view())
}

/// The store of identifiers seen of late.
pub struct Dedup {
    entries: Vec<Entry>,
    horizon: u64,
    capacity: usize,
}

impl View for Dedup {
    type V = DedupView;

    closed spec fn view(&self) -> DedupView {
        DedupView {
            entries: views(self.entries@),
            horizon: self.horizon,
            capacity: self.capacity as int,
        }
    }
}

impl Dedup {
    /// Every store is well formed.
    #[verifier::type_invariant]
    pub open spec fn well_formed(&self) -> bool {
        self@.wf()
    }

    /// An empty store that keeps an identifier for `horizon` and holds
    /// `capacity` of them at most; a capacity of 0 is taken to be 1.
    pub fn new(horizon: u64, capacity: usize) -> (r: Dedup)
        ensures
            r@.wf(),
            r@ == (DedupView {
                entries: Seq::empty(),
                horizon,
                capacity: if capacity == 0 {
                    1
                } else {
                    capacity as int
                },
            }),
    {
        let r = Dedup {
            entries: Vec::new(),
            horizon,
            capacity: if capacity == 0 {
                1
            } else {
                capacity
            },
        };
        assert(views(r.entries@) =~= Seq::<Seen>::empty());
        r
    }

    /// How many identifiers the store holds: no more than its capacity.
    pub fn len(&self) -> (r: usize)
        ensures
            r == self@.entries.len(),
            self@.wf(),
    {
        proof {
            use_type_invariant(self);
        }
        self.entries.len()
    }

    /// Drops the entries that are past the horizon at `now`.
    fn evict(&mut self, now: u64)
        ensures
            final(self)@ == (DedupView {
                entries: kept(old(self)@.entries, now, old(self)@.horizon),
                ..old(self)@
            }),
    {
        let mut still: Vec<Entry> = Vec::new();
        let n: usize = self.entries.len();
        let mut i: usize = 0;
        proof {
            reveal(Seq::filter);
            assert(views(self.entries@.subrange(0, 0)) =~= Seq::<Seen>::empty());
            assert(views(still@) =~= Seq::<Seen>::empty());
        }
        while i < n
            invariant
                i <= n == self.entries@.len(),
                views(still@) == kept(views(self.entries@.subrange(0, i as int)), now, self.horizon),
                self.entries@ == old(self).entries@,
                self.horizon == old(self).horizon,
                self.capacity == old(self).capacity,
            decreases n - i,
        {
            let e: Entry = self.entries[i];
            let ghost before = still@;
            proof {
                reveal(Seq::filter);
                let next = views(self.entries@.subrange(0, i + 1));
                assert(next.drop_last() =~= views(self.entries@.subrange(0, i as int)));
                assert(next.last() == e.view());
            }
            if e.seen > now || now - e.seen < self.horizon {
                still.push(e);
                assert(views(still@) =~= views(before).push(e.view()));
            }
            i += 1;
        }
        assert(self.entries@.subrange(0, n as int) =~= self.entries@);
        proof {
            use_type_invariant(&*self);
            lemma_kept(views(self.entries@), now, self.horizon);
        }
        self.entries = still;
    }

    /// Whether `id` is among the entries.
    fn holds(&self, id: &[u8]) -> (r: bool)
        ensures
            r == known(self@.entries, id@),
    {
        let n: usize = self.entries.len();
        let mut i: usize = 0;
        while i < n
            invariant
                i <= n == self.entries@.len(),
                forall|j: int| 0 <= j < i ==> (#[trigger] views(self.entries@)[j]).id != id@,
            decreases n - i,
        {
            if same_bytes(self.entries[i].id.as_slice(), id) {
                assert(views(self.entries@)[i as int].id == id@);
                return true;
            }
            i += 1;
        }
        false
    }

    /// Presents `id` at the time `now`, and says whether that is a replay:
    /// whether the identifier was presented before and less than the horizon
    /// has passed since. A fresh identifier is taken in, so that presenting
    /// it again is a replay.
    pub fn check_and_insert(&mut self, id: &[u8; 32], now: u64) -> (seen: bool)
        ensures
            old(self)@.wf(),
            seen == old(self)@.replayed(id@, now),
            final(self)@ == old(self)@.presented(id@, now),
            final(self)@.wf(),
    {
        proof {
            use_type_invariant(&*self);
            lemma_presented(self@, id@, now);
        }
        self.evict(now);
        if self.holds(id.as_slice()) {
            return true;
        }
        // the entries are taken out while they change, so that the store is
        // well formed at every step
        let mut entries: Vec<Entry> = Vec::new();
        std::mem::swap(&mut entries, &mut self.entries);
        let ghost still = entries@;
        if entries.len() >= self.capacity {
            entries.remove(0);
            assert(views(entries@) =~= views(still).drop_first());
        }
        let ghost room = entries@;
        entries.push(Entry { id: *id, seen: now });
        assert(views(entries@) =~= views(room).push(Seen { id: id@, at: now }));
        self.entries = entries;
        false
    }
}

} // verus!
