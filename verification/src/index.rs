//! The in-memory index: a mapping from each live key to the locator of its
//! most recent `Set` record.
//!
//! The index is an association list with distinct keys. A ghost map from
//! key to slot makes absence provable: a key is in the store exactly when
//! the ghost map holds it. Each entry also carries, as ghost data, the
//! value its record stores, so the index alone determines the store's
//! observable map (`model`).

use vstd::prelude::*;
use vstd::pervasive::VecAdditionalExecFns;

verus! {

/// Where a record lies: the log named `ver`, at byte offset `pos`, with
/// encoded byte length `len`.
#[derive(Clone, Copy, PartialEq, Eq, Structural, Debug)]
pub struct CommandPosition {
    /// The version number of the log file holding the record.
    pub ver: u64,
    /// The byte offset of the record's first byte in that file.
    pub pos: u64,
    /// The record's encoded byte length.
    pub len: u64,
}

/// One live key: its latest `Set` record's locator, and (ghost) the value
/// that record carries.
pub(crate) struct IndexEntry {
    pub key: Vec<u8>,
    pub loc: CommandPosition,
    pub val: Ghost<Seq<u8>>,
}

/// The index over all live keys.
pub(crate) struct KvIndex {
    entries: Vec<IndexEntry>,
    slot: Ghost<Map<Seq<u8>, int>>,
}

impl KvIndex {
    /// The entries, in their storage order.
    pub(crate) closed spec fn entries_seq(self) -> Seq<IndexEntry> {
        self.entries@
    }

    /// The ghost map from key to its slot in `entries_seq`.
    pub(crate) closed spec fn slot_map(self) -> Map<Seq<u8>, int> {
        self.slot@
    }

    /// Entries and slot map agree: every slot names an entry with that key,
    /// and every entry's key names its slot. Keys are therefore distinct.
    pub(crate) open spec fn wf(self) -> bool {
        &&& forall|k: Seq<u8>|
            #[trigger] self.slot_map().contains_key(k) ==> 0 <= self.slot_map()[k]
                < self.entries_seq().len() && self.entries_seq()[self.slot_map()[k]].key@ == k
        &&& forall|i: int|
            0 <= i < self.entries_seq().len() ==> self.slot_map().contains_key(
                #[trigger] self.entries_seq()[i].key@,
            ) && self.slot_map()[self.entries_seq()[i].key@] == i
    }

    /// Whether the key is live.
    pub(crate) open spec fn has(self, k: Seq<u8>) -> bool {
        self.slot_map().contains_key(k)
    }

    /// The observable map: each live key bound to the value its record
    /// carries.
    pub(crate) open spec fn model(self) -> Map<Seq<u8>, Seq<u8>> {
        Map::new(|k: Seq<u8>| self.has(k), |k: Seq<u8>| self.entries_seq()[self.slot_map()[k]].val@)
    }

    /// The locator of a live key's record.
    pub(crate) open spec fn loc_of(self, k: Seq<u8>) -> CommandPosition {
        self.entries_seq()[self.slot_map()[k]].loc
    }

    /// An empty index.
    pub(crate) fn new() -> (r: Self)
        ensures
            r.wf(),
            r.model() == Map::<Seq<u8>, Seq<u8>>::empty(),
            r.entries_seq().len() == 0,
    {
        let r = KvIndex { entries: Vec::new(), slot: Ghost(Map::empty()) };
        proof {
            assert(r.model() =~= Map::<Seq<u8>, Seq<u8>>::empty());
        }
        r
    }

    /// The number of live keys.
    pub(crate) fn len(&self) -> (r: usize)
        ensures
            r == self.entries_seq().len(),
    {
        self.entries.len()
    }

    /// The slot holding `key`, when the key is live.
    pub(crate) fn find(&self, key: &Vec<u8>) -> (r: Option<usize>)
        requires
            self.wf(),
        ensures
            (match r {
                Some(i) => self.has(key@) && i < self.entries_seq().len()
                    && self.entries_seq()[i as int].key@ == key@ && self.slot_map()[key@] == i,
                None => !self.has(key@),
            }),
    {
        let mut i: usize = 0;
        let n = self.entries.len();
        while i < n
            invariant
                self.wf(),
                n == self.entries_seq().len(),
                i <= n,
                forall|j: int| 0 <= j < i ==> #[trigger] self.entries_seq()[j].key@ != key@,
            decreases n - i,
        {
            if bytes_eq(&self.entries[i].key, key) {
                return Some(i);
            }
            i = i + 1;
        }
        proof {
            if self.slot_map().contains_key(key@) {
                assert(self.entries_seq()[self.slot_map()[key@]].key@ == key@);
                assert(false);
            }
        }
        None
    }

    /// The locator of `key`, when the key is live.
    pub(crate) fn get(&self, key: &Vec<u8>) -> (r: Option<CommandPosition>)
        requires
            self.wf(),
        ensures
            (match r {
                Some(loc) => self.has(key@) && loc == self.loc_of(key@),
                None => !self.has(key@),
            }),
    {
        match self.find(key) {
            Some(i) => Some(self.entries[i].loc),
            None => None,
        }
    }

    /// Binds `key` to `loc` (and, as ghost data, to the value `val`),
    /// replacing any earlier binding; the earlier binding's locator comes
    /// back.
    pub(crate) fn insert(
        &mut self,
        key: Vec<u8>,
        loc: CommandPosition,
        val: Ghost<Seq<u8>>,
    ) -> (old_loc: Option<CommandPosition>)
        requires
            old(self).wf(),
        ensures
            final(self).wf(),
            final(self).model() == old(self).model().insert(key@, val@),
            final(self).has(key@),
            final(self).loc_of(key@) == loc,
            forall|k: Seq<u8>| k != key@ ==> final(self).has(k) == old(self).has(k),
            forall|k: Seq<u8>|
                k != key@ && old(self).has(k) ==> final(self).loc_of(k) == old(self).loc_of(k),
            (match old_loc {
                Some(l) => old(self).has(key@) && l == old(self).loc_of(key@) && final(self).entries_seq().len() == old(self).entries_seq().len(),
                None => !old(self).has(key@) && final(self).entries_seq().len() == old(self).entries_seq().len() + 1,
            }),
    {
        let ghost key_view = key@;
        match self.find(&key) {
            Some(i) => {
                let prior = self.entries[i].loc;
                self.entries.set(i, IndexEntry { key, loc, val });
                proof {
                    assert forall|k: Seq<u8>| #[trigger]
                        self.slot_map().contains_key(k) && k != key_view implies self.slot_map()[k]
                        != i as int by {
                        if self.slot_map()[k] == i as int {
                            assert(old(self).entries_seq()[i as int].key@ == k);
                        }
                    }
                    assert(self.model() =~= old(self).model().insert(key_view, val@));
                }
                Some(prior)
            },
            None => {
                let ghost n = self.entries@.len() as int;
                self.entries.push(IndexEntry { key, loc, val });
                self.slot = Ghost(old(self).slot@.insert(key_view, n));
                proof {
                    assert(self.model() =~= old(self).model().insert(key_view, val@));
                }
                None
            },
        }
    }

    /// Unbinds `key`; the removed binding's locator comes back when the key
    /// was live.
    pub(crate) fn remove(&mut self, key: &Vec<u8>) -> (old_loc: Option<CommandPosition>)
        requires
            old(self).wf(),
        ensures
            final(self).wf(),
            final(self).model() == old(self).model().remove(key@),
            !final(self).has(key@),
            forall|k: Seq<u8>| k != key@ ==> final(self).has(k) == old(self).has(k),
            forall|k: Seq<u8>|
                k != key@ && old(self).has(k) ==> final(self).loc_of(k) == old(self).loc_of(k),
            (match old_loc {
                Some(l) => old(self).has(key@) && l == old(self).loc_of(key@) && final(self).entries_seq().len() == old(self).entries_seq().len() - 1,
                None => !old(self).has(key@) && *final(self) == *old(self),
            }),
    {
        match self.find(key) {
            Some(i) => {
                let ghost last = self.entries@.len() - 1;
                let ghost moved_key = self.entries@[last].key@;
                let e = self.entries.swap_remove(i);
                let ghost new_slot = if i as int == last {
                    old(self).slot@.remove(key@)
                } else {
                    old(self).slot@.remove(key@).insert(moved_key, i as int)
                };
                self.slot = Ghost(new_slot);
                proof {
                    if i as int != last {
                        assert(old(self).slot_map()[moved_key] == last);
                        assert(moved_key != key@);
                    }
                    assert forall|k: Seq<u8>| #[trigger]
                        self.slot_map().contains_key(k) implies 0 <= self.slot_map()[k]
                        < self.entries_seq().len() && self.entries_seq()[self.slot_map()[k]].key@
                        == k by {
                        if k != moved_key {
                            assert(old(self).slot_map()[k] != i as int) by {
                                if old(self).slot_map()[k] == i as int {
                                    assert(old(self).entries_seq()[i as int].key@ == k);
                                }
                            }
                            assert(old(self).slot_map()[k] != last) by {
                                if old(self).slot_map()[k] == last {
                                    assert(old(self).entries_seq()[last].key@ == k);
                                }
                            }
                        }
                    }
                    assert(self.model() =~= old(self).model().remove(key@));
                }
                Some(e.loc)
            },
            None => {
                proof {
                    assert(self.model() =~= old(self).model().remove(key@));
                }
                None
            },
        }
    }

    /// A borrowed view of the key in slot `i`, for compaction.
    pub(crate) fn key_at(&self, i: usize) -> (r: &Vec<u8>)
        requires
            self.wf(),
            i < self.entries_seq().len(),
        ensures
            r@ == self.entries_seq()[i as int].key@,
    {
        &self.entries[i].key
    }

    /// The locator in slot `i`, for compaction.
    pub(crate) fn loc_at(&self, i: usize) -> (r: CommandPosition)
        requires
            self.wf(),
            i < self.entries_seq().len(),
        ensures
            r == self.entries_seq()[i as int].loc,
            self.has(self.entries_seq()[i as int].key@),
            r == self.loc_of(self.entries_seq()[i as int].key@),
    {
        self.entries[i].loc
    }

    /// Points the entry in slot `i` at a new locator, leaving its key, its
    /// value, and every other entry unchanged.
    pub(crate) fn set_loc(&mut self, i: usize, loc: CommandPosition)
        requires
            old(self).wf(),
            i < old(self).entries_seq().len(),
        ensures
            final(self).wf(),
            final(self).model() == old(self).model(),
            final(self).slot_map() == old(self).slot_map(),
            final(self).entries_seq().len() == old(self).entries_seq().len(),
            forall|j: int|
                0 <= j < final(self).entries_seq().len() ==> #[trigger] final(self).entries_seq()[j].key@ == old(self).entries_seq()[j].key@ && final(self).entries_seq()[j].val@ == old(self).entries_seq()[j].val@,
            final(self).entries_seq()[i as int].loc == loc,
            forall|j: int|
                0 <= j < final(self).entries_seq().len() && j != i ==> #[trigger] final(self).entries_seq()[j].loc == old(self).entries_seq()[j].loc,
    {
        let mut tmp = IndexEntry { key: Vec::new(), loc, val: Ghost(Seq::empty()) };
        self.entries.set_and_swap(i, &mut tmp);
        let fresh = IndexEntry { key: tmp.key, loc, val: tmp.val };
        self.entries.set(i, fresh);
        proof {
            assert(self.model() =~= old(self).model());
        }
    }
}

/// Whether two byte strings hold the same bytes.
pub(crate) fn bytes_eq(a: &Vec<u8>, b: &Vec<u8>) -> (r: bool)
    ensures
        r == (a@ == b@),
{
    if a.len() != b.len() {
        proof {
            assert(a@ != b@);
        }
        return false;
    }
    let n = a.len();
    let mut i: usize = 0;
    while i < n
        invariant
            n == a@.len(),
            n == b@.len(),
            i <= n,
            forall|j: int| 0 <= j < i ==> a@[j] == b@[j],
        decreases n - i,
    {
        if a[i] != b[i] {
            proof {
                assert(a@ != b@);
            }
            return false;
        }
        i = i + 1;
    }
    proof {
        assert(a@ =~= b@);
    }
    true
}

} // verus!
