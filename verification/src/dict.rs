//! Dictionaries: the container that is read by key.

use vstd::prelude::*;
use crate::array::first_error;
use crate::array::lemma_first_error_stays;
use crate::array::lemma_no_error;
use crate::plist_error::PlistError;
use crate::store::distinct_keys;
use crate::store::key_index;
use crate::store::Content;
use crate::store::Store;
use crate::Plist;
use crate::PlistType;

verus! {

/// A handle that is known to have been a dictionary when it was narrowed.
pub struct PlistDict {
    pub(crate) inner: Plist,
}

/// A cursor over the entries of a dictionary, in the order in which the
/// dictionary keeps them.
pub struct PlistDictIter {
    pub(crate) p: Plist,
    pub(crate) pos: usize,
}

/// The slot of the live dictionary that `handle` reaches in `store`.
pub open spec fn dict_slot(handle: Plist, store: &Store) -> Option<usize> {
    match handle.target(store) {
        Some(c) => if store.content(c) is Dictionary {
            Some(c)
        } else {
            None
        },
        None => None,
    }
}

/// The keys of the live dictionary that `handle` reaches in `store`, in the
/// order in which it keeps them; empty where it reaches none.
pub open spec fn dict_keys(handle: Plist, store: &Store) -> Seq<Seq<char>> {
    match dict_slot(handle, store) {
        Some(c) => store.content(c)->Dictionary_0,
        None => Seq::empty(),
    }
}

/// The slots of the values of the live dictionary that `handle` reaches in
/// `store`, each at the position of its key; empty where it reaches none.
pub open spec fn dict_nodes(handle: Plist, store: &Store) -> Seq<usize> {
    match dict_slot(handle, store) {
        Some(c) => store.content(c)->Dictionary_1,
        None => Seq::empty(),
    }
}

/// The slot of the value that stands under `key`, if the key is there.
pub open spec fn dict_lookup(handle: Plist, store: &Store, key: Seq<char>) -> Option<usize> {
    match key_index(dict_keys(handle, store), key) {
        Some(i) => Some(dict_nodes(handle, store)[i]),
        None => None,
    }
}

/// A key that stands nowhere is not found.
pub proof fn lemma_key_absent(keys: Seq<Seq<char>>, key: Seq<char>)
    requires
        forall|i: int| 0 <= i < keys.len() ==> #[trigger] keys[i] != key,
    ensures
        key_index(keys, key) is None,
{
}

/// The keys of `entries` as sequences of characters, in order.
pub open spec fn entry_keys(entries: Seq<(String, Plist)>) -> Seq<Seq<char>> {
    Seq::new(entries.len(), |i: int| entries[i].0@)
}

/// The handles of `entries`, in order.
pub open spec fn entry_items(entries: Seq<(String, Plist)>) -> Seq<Plist> {
    Seq::new(entries.len(), |i: int| entries[i].1)
}

/// Why no dictionary can be made of `entries`: a key stands twice, or one of
/// the handles cannot be copied.
pub open spec fn entries_error(store: &Store, entries: Seq<(String, Plist)>) -> Option<
    PlistError,
> {
    if !distinct_keys(entry_keys(entries)) {
        Some(PlistError::InvalidArg)
    } else {
        first_error(store, entry_items(entries))
    }
}

/// Whether no key of `entries` stands twice.
fn keys_differ(entries: &Vec<(String, Plist)>) -> (b: bool)
    ensures
        b == distinct_keys(entry_keys(entries@)),
{
    let ghost ks = entry_keys(entries@);
    let mut i: usize = 0;
    while i < entries.len()
        invariant
            i <= entries.len(),
            ks == entry_keys(entries@),
            forall|a: int, b: int| 0 <= a < b < i ==> #[trigger] ks[a] != #[trigger] ks[b],
        decreases entries.len() - i,
    {
        let mut j: usize = 0;
        while j < i
            invariant
                j <= i,
                i < entries.len(),
                ks == entry_keys(entries@),
                forall|a: int| 0 <= a < j ==> #[trigger] ks[a] != ks[i as int],
            decreases i - j,
        {
            if entries[j].0 == entries[i].0 {
                proof {
                    assert(ks[j as int] == ks[i as int]);
                }
                return false;
            }
            proof {
                assert(ks[j as int] == entries@[j as int].0@);
                assert(ks[i as int] == entries@[i as int].0@);
            }
            j = j + 1;
        }
        i = i + 1;
    }
    proof {
        assert forall|a: int, b: int|
            0 <= a < ks.len() && 0 <= b < ks.len() && a != b implies #[trigger] ks[a]
            != #[trigger] ks[b] by {
            if a < b {
            } else {
                assert(ks[b] != ks[a]);
            }
        }
    }
    true
}

impl Plist {
    /// A new dictionary that holds, under each key of `entries`, a copy of
    /// the tree of the handle that stands beside the key, in the order of
    /// `entries`. The handles keep what they own. Where a key stands twice
    /// or a handle cannot be copied, nothing changes.
    pub fn from_dict(store: &mut Store, entries: &Vec<(String, Plist)>) -> (r: Result<
        Plist,
        PlistError,
    >)
        requires
            old(store).wf(),
        ensures
            final(store).wf(),
            match r {
                Ok(h) => {
                    let dst = h.node()->0;
                    let y = final(store).content(dst).children();
                    &&& entries_error(old(store), entries@) is None
                    &&& h.is_owning()
                    &&& h.node() is Some
                    &&& dst == old(store).size()
                    &&& h.target(final(store)) == Some(dst)
                    &&& final(store).parent(dst) is None
                    &&& final(store).content(dst) is Dictionary
                    &&& final(store).content(dst)->Dictionary_0 == entry_keys(entries@)
                    &&& y.len() == entries@.len()
                    &&& forall|i: int|
                        0 <= i < entries@.len() ==> Store::copy_of(
                            *old(store),
                            (#[trigger] entries@[i]).1.target(old(store))->0,
                            *final(store),
                            y[i],
                            dst + 1,
                            final(store).size() as int,
                        )
                    &&& final(store).extends(*old(store))
                    &&& forall|n: usize|
                        n < old(store).size() ==> final(store).live(n) == old(store).live(n)
                },
                Err(e) => entries_error(old(store), entries@) == Some(e) && final(store).unchanged(*old(store)),
            },
    {
        if !keys_differ(entries) {
            return Err(PlistError::InvalidArg);
        }
        let ghost items = entry_items(entries@);
        let ghost ks = entry_keys(entries@);
        let mut i: usize = 0;
        while i < entries.len()
            invariant
                i <= entries.len(),
                store.wf(),
                *store == *old(store),
                items == entry_items(entries@),
                distinct_keys(entry_keys(entries@)),
                first_error(store, items.take(i as int)) is None,
            decreases entries.len() - i,
        {
            proof {
                assert(items.take(i + 1).drop_last() =~= items.take(i as int));
                assert(items.take(i + 1).last() == entries@[i as int].1);
            }
            match entries[i].1.as_ptr(store) {
                Ok(n) => {
                    proof {
                        store.lemma_live_occupied(n);
                    }
                    if store.is_top_ranked(n) {
                        proof {
                            lemma_first_error_stays(store, items, i + 1);
                        }
                        return Err(PlistError::NoMemory);
                    }
                },
                Err(e) => {
                    proof {
                        lemma_first_error_stays(store, items, i + 1);
                    }
                    return Err(e);
                },
            }
            i = i + 1;
        }
        proof {
            assert(items.take(i as int) =~= items);
        }
        let h = Plist::new_dict(store);
        let dst = match h.named() {
            Some(dst) => dst,
            None => 0,
        };
        proof {
            store.lemma_live_occupied(dst);
            assert(ks.take(0) =~= Seq::<Seq<char>>::empty());
        }
        let mut i: usize = 0;
        while i < entries.len()
            invariant
                i <= entries.len(),
                old(store).wf(),
                items == entry_items(entries@),
                ks == entry_keys(entries@),
                distinct_keys(ks),
                first_error(old(store), items) is None,
                store.wf(),
                store.extends(*old(store)),
                dst == old(store).size(),
                store.size() > dst,
                store.live(dst),
                store.parent(dst) is None,
                store.content(dst) is Dictionary,
                store.content(dst)->Dictionary_0 == ks.take(i as int),
                store.content(dst).children().len() == i,
                h.is_owning(),
                h.node() == Some(dst),
                forall|n: usize| n < old(store).size() ==> store.live(n) == old(store).live(n),
                forall|j: int|
                    0 <= j < i ==> Store::copy_of(
                        *old(store),
                        (#[trigger] entries@[j]).1.target(old(store))->0,
                        *store,
                        store.content(dst).children()[j],
                        dst + 1,
                        store.size() as int,
                    ),
            decreases entries.len() - i,
        {
            let ghost s_a = *store;
            let ghost src = entries@[i as int].1.target(old(store))->0;
            proof {
                lemma_no_error(old(store), items, i as int);
                assert(items[i as int] == entries@[i as int].1);
                old(store).lemma_live_occupied(src);
                old(store).lemma_occupied_bound(src);
                store.lemma_extends_kept(*old(store), src);
                store.lemma_live_occupied(dst);
                store.lemma_root_room(dst, src);
                let have = ks.take(i as int);
                assert forall|j: int| 0 <= j < have.len() implies #[trigger] have[j]
                    != ks[i as int] by {
                    assert(have[j] == ks[j]);
                }
                lemma_key_absent(have, ks[i as int]);
            }
            let n = match entries[i].1.as_ptr(store) {
                Ok(n) => n,
                Err(_) => 0,
            };
            let key = entries[i].0.clone();
            let placed = store.copy_under(dst, n, i, key);
            proof {
                let d = placed->0;
                let y_a = s_a.content(dst).children();
                let y = store.content(dst).children();
                assert(y == y_a.insert(i as int, d));
                assert(ks.take(i as int).insert(i as int, ks[i as int]) =~= ks.take(i + 1));
                store.lemma_extends_but_root(s_a, *old(store), dst);
                store.lemma_extends_but_kept(s_a, dst);
                store.lemma_root_live(dst);
                assert forall|j: int| 0 <= j < i + 1 implies Store::copy_of(
                    *old(store),
                    (#[trigger] entries@[j]).1.target(old(store))->0,
                    *store,
                    y[j],
                    dst + 1,
                    store.size() as int,
                ) by {
                    let a_j = entries@[j].1.target(old(store))->0;
                    lemma_no_error(old(store), items, j);
                    assert(items[j] == entries@[j].1);
                    old(store).lemma_live_occupied(a_j);
                    if j < i {
                        assert(y[j] == y_a[j]);
                        old(store).lemma_extends_self();
                        Store::lemma_copy_moves(
                            *old(store),
                            *old(store),
                            a_j,
                            s_a,
                            *store,
                            y_a[j],
                            dst + 1,
                            s_a.size() as int,
                            dst + 1,
                            store.size() as int,
                        );
                    } else {
                        assert(y[j] == d);
                        Store::lemma_copy_moves(
                            *old(store),
                            s_a,
                            a_j,
                            *store,
                            *store,
                            d,
                            d as int,
                            store.size() as int,
                            dst + 1,
                            store.size() as int,
                        );
                    }
                }
            }
            i = i + 1;
        }
        proof {
            assert(ks.take(i as int) =~= ks);
        }
        Ok(h)
    }

    /// Narrows this handle to a dictionary. Where its node is no live
    /// dictionary, the handle is released and nothing is returned.
    pub fn dict(self, store: &mut Store) -> (r: Option<PlistDict>)
        requires
            old(store).wf(),
        ensures
            final(store).wf(),
            match r {
                Some(d) => {
                    &&& d.handle() == self
                    &&& d.slot(old(store)) is Some
                    &&& final(store).unchanged(*old(store))
                },
                None => {
                    &&& !(self.reading(old(store)) matches Some(Content::Dictionary(_, _)))
                    &&& self.released(old(store), final(store))
                },
            },
    {
        if self.plist_type(store) != PlistType::Dictionary {
            self.release(store);
            return None;
        }
        Some(PlistDict { inner: self })
    }
}

impl PlistDict {
    /// The handle that was narrowed.
    pub closed spec fn handle(&self) -> Plist {
        self.inner
    }

    /// The slot of the live dictionary that this container reaches in `store`.
    pub open spec fn slot(&self, store: &Store) -> Option<usize> {
        dict_slot(self.handle(), store)
    }

    /// The keys, in the order in which the dictionary keeps them.
    pub open spec fn keys(&self, store: &Store) -> Seq<Seq<char>> {
        dict_keys(self.handle(), store)
    }

    /// The slots of the values, each at the position of its key.
    pub open spec fn nodes(&self, store: &Store) -> Seq<usize> {
        dict_nodes(self.handle(), store)
    }

    /// The slot of the value that stands under `key`, if the key is there.
    pub open spec fn lookup(&self, store: &Store, key: Seq<char>) -> Option<usize> {
        dict_lookup(self.handle(), store, key)
    }

    /// Why no entry can be read or written: the handle reaches no live node,
    /// or one that is no dictionary.
    pub open spec fn gate(&self, store: &Store) -> Option<PlistError> {
        match self.handle().target(store) {
            None => Some(PlistError::Dealloc),
            Some(c) => if store.content(c) is Dictionary {
                None
            } else {
                Some(PlistError::InvalidArg)
            },
        }
    }

    /// Why `item` cannot become a value of this dictionary.
    pub open spec fn put_error(&self, store: &Store, item: Plist) -> Option<PlistError> {
        match self.gate(store) {
            Some(e) => Some(e),
            None => item.transfer_error(store, self.slot(store)->0),
        }
    }

    /// The slot of the live dictionary that this container reaches, or why it
    /// reaches none.
    fn locate(&self, store: &Store) -> (r: Result<usize, PlistError>)
        requires
            store.wf(),
        ensures
            r == match self.gate(store) {
                Some(e) => Err::<usize, PlistError>(e),
                None => Ok::<usize, PlistError>(self.slot(store)->0),
            },
            r matches Ok(c) ==> store.live(c) && store.occupied(c) && self.slot(store) == Some(c)
                && self.keys(store).len() == self.nodes(store).len() && distinct_keys(
                self.keys(store),
            ),
    {
        let c = match self.inner.as_ptr(store) {
            Ok(c) => c,
            Err(e) => {
                return Err(e);
            },
        };
        proof {
            store.lemma_live_occupied(c);
        }
        if store.kind(c) != PlistType::Dictionary {
            return Err(PlistError::InvalidArg);
        }
        proof {
            store.lemma_dict_shape(c);
        }
        Ok(c)
    }

    /// Gives back the handle that was narrowed.
    pub fn into_plist(self) -> (r: Plist)
        ensures
            r == self.handle(),
    {
        self.inner
    }

    /// The number of entries; zero where no live dictionary is reached.
    pub fn len(&self, store: &Store) -> (n: usize)
        requires
            store.wf(),
        ensures
            n == self.nodes(store).len(),
            n == self.keys(store).len(),
    {
        match self.locate(store) {
            Ok(c) => store.child_count(c),
            Err(_) => 0,
        }
    }

    /// A view of the value that stands under `key`; nothing where the
    /// dictionary has no such key.
    pub fn get(&self, store: &Store, key: &str) -> (r: Option<Plist>)
        requires
            store.wf(),
        ensures
            match r {
                Some(h) => h.is_view() && self.lookup(store, key@) is Some && h.target(store)
                    == self.lookup(store, key@),
                None => self.lookup(store, key@) is None,
            },
    {
        let c = match self.locate(store) {
            Ok(c) => c,
            Err(_) => {
                return None;
            },
        };
        let owned = key.to_owned();
        match store.find_key(c, &owned) {
            Some(i) => {
                proof {
                    store.lemma_child_live(c, i as int);
                }
                Some(Plist::new_with_weak(store.child_at(c, i)))
            },
            None => None,
        }
    }

    /// What holds after `item` was put under `key`: which result came, that
    /// an error changed nothing, and on success where the node of `item`
    /// stands, what was freed, and that `item` became a view.
    pub open spec fn set_done(
        &self,
        before: &Store,
        after: &Store,
        key: Seq<char>,
        item_before: Plist,
        item_after: Plist,
        r: Result<(), PlistError>,
    ) -> bool {
        &&& r == match self.put_error(before, item_before) {
            Some(e) => Err::<(), PlistError>(e),
            None => Ok::<(), PlistError>(()),
        }
        &&& r is Err ==> after.unchanged(*before) && item_after == item_before
        &&& r is Ok ==> {
            let c = self.slot(before)->0;
            let n = item_before.target(before)->0;
            &&& item_after.is_view()
            &&& item_after.node() == Some(n)
            &&& self.lookup(after, key) == Some(n)
            &&& after.content(n) == before.content(n)
            &&& after.parent(n) == Some(c)
            &&& after.reaches(n, c)
            &&& after.ranks_kept(*before, c)
            &&& after.parent(c) == before.parent(c)
            &&& match key_index(self.keys(before), key) {
                Some(i) => {
                    let k = self.nodes(before)[i];
                    &&& self.keys(after) == self.keys(before)
                    &&& self.nodes(after) == self.nodes(before).update(i, n)
                    &&& self.nodes(after).len() == self.nodes(before).len()
                    &&& after.same_but3(*before, c, n, k)
                    &&& forall|i: usize|
                        after.live(i) == (before.live(i) && !before.reaches(i, k))
                },
                None => {
                    &&& self.keys(after) == self.keys(before).push(key)
                    &&& self.nodes(after) == self.nodes(before).push(n)
                    &&& self.nodes(after).len() == self.nodes(before).len() + 1
                    &&& after.same_but2(*before, c, n)
                    &&& forall|i: usize| after.live(i) == before.live(i)
                },
            }
        }
    }

    /// What holds after the entry under `key` was taken out: which result
    /// came, that an error or an absent key changed nothing, and on success
    /// which entry is gone and what was freed.
    pub open spec fn remove_done(
        &self,
        before: &Store,
        after: &Store,
        key: Seq<char>,
        r: Result<(), PlistError>,
    ) -> bool {
        &&& r == match self.gate(before) {
            Some(e) => Err::<(), PlistError>(e),
            None => Ok::<(), PlistError>(()),
        }
        &&& r is Err ==> after.unchanged(*before)
        &&& r is Ok ==> {
            let c = self.slot(before)->0;
            &&& self.lookup(after, key) is None
            &&& after.parent(c) == before.parent(c)
            &&& after.same_ranks(*before)
            &&& match key_index(self.keys(before), key) {
                Some(i) => {
                    let k = self.nodes(before)[i];
                    &&& self.keys(after) == self.keys(before).remove(i)
                    &&& self.nodes(after) == self.nodes(before).remove(i)
                    &&& self.nodes(after).len() == self.nodes(before).len() - 1
                    &&& !after.occupied(k)
                    &&& after.same_but2(*before, c, k)
                    &&& forall|i: usize|
                        after.live(i) == (before.live(i) && !before.reaches(i, k))
                },
                None => after.unchanged(*before),
            }
        }
    }

    /// Puts the node of `item` under `key`. Where the key is there already,
    /// its entry keeps its place, and the value that stood under it is freed
    /// with everything below it; a new key goes behind the last entry. `item`
    /// becomes a view of its node, which the dictionary now owns.
    pub fn set(&self, store: &mut Store, key: &str, item: &mut Plist) -> (r: Result<
        (),
        PlistError,
    >)
        requires
            old(store).wf(),
        ensures
            final(store).wf(),
            self.set_done(old(store), final(store), key@, *old(item), *final(item), r),
    {
        let c = match self.locate(store) {
            Ok(c) => c,
            Err(e) => {
                return Err(e);
            },
        };
        let owned = key.to_owned();
        let ghost keys = self.keys(old(store));
        let ghost nodes = self.nodes(old(store));
        match store.find_key(c, &owned) {
            Some(i) => {
                match Plist::transfer_over(store, c, item, i) {
                    Ok(k) => {
                        proof {
                            old(store).lemma_reaches_self(c);
                            old(store).lemma_child_live(c, i as int);
                            old(store).lemma_child_below(c, i as int);
                            Store::lemma_key_at(keys, key@, i as int);
                        }
                        Ok(())
                    },
                    Err(e) => Err(e),
                }
            },
            None => {
                let end = store.child_count(c);
                let r = Plist::transfer(store, c, item, end, owned);
                proof {
                    if r is Ok {
                        let n = old(item).node()->0;
                        assert(keys.insert(end as int, key@) =~= keys.push(key@));
                        assert(nodes.insert(end as int, n) =~= nodes.push(n));
                        store.lemma_live_occupied(c);
                        store.lemma_dict_shape(c);
                        Store::lemma_key_at(keys.push(key@), key@, end as int);
                    }
                }
                r
            },
        }
    }

    /// Takes the entry under `key` out of the dictionary and frees its value
    /// with everything below it. A key that is not there changes nothing.
    pub fn remove(&self, store: &mut Store, key: &str) -> (r: Result<(), PlistError>)
        requires
            old(store).wf(),
        ensures
            final(store).wf(),
            self.remove_done(old(store), final(store), key@, r),
    {
        let c = match self.locate(store) {
            Ok(c) => c,
            Err(e) => {
                return Err(e);
            },
        };
        let owned = key.to_owned();
        let ghost keys = self.keys(old(store));
        match store.find_key(c, &owned) {
            Some(i) => {
                let k = store.drop_child(c, i);
                proof {
                    old(store).lemma_child_below(c, i as int);
                    let keys2 = keys.remove(i as int);
                    assert forall|j: int| 0 <= j < keys2.len() implies #[trigger] keys2[j]
                        != key@ by {
                        let jj = if j < i { j } else { j + 1 };
                        assert(keys2[j] == keys[jj]);
                    }
                    lemma_key_absent(keys2, key@);
                }
                Ok(())
            },
            None => Ok(()),
        }
    }

    /// Why the entries of `source` cannot be merged into this dictionary:
    /// one of the two reaches no live dictionary, or the store has no room.
    pub open spec fn merge_error(&self, store: &Store, source: PlistDict) -> Option<PlistError> {
        match self.gate(store) {
            Some(e) => Some(e),
            None => match source.gate(store) {
                Some(e) => Some(e),
                None => if store.room_for_all(self.slot(store)->0, source.nodes(store)) {
                    None
                } else {
                    Some(PlistError::NoMemory)
                },
            },
        }
    }

    /// Copies every entry of `source` into this dictionary. Under a key that
    /// this dictionary has already, the copy takes the place of the value
    /// that stood there, which is freed with everything below it; the
    /// entries under new keys go behind the last entry, in the order of
    /// `source`. Every other entry stays as it is, and `source` is read
    /// before anything changes: what it owns stays its own. Of the nodes that
    /// were there before, exactly those at or below a replaced value stop
    /// being live. On an error no slot that was there before changes.
    pub fn merge(&self, store: &mut Store, source: &PlistDict) -> (r: Result<(), PlistError>)
        requires
            old(store).wf(),
        ensures
            final(store).wf(),
            r == match self.merge_error(old(store), *source) {
                Some(e) => Err::<(), PlistError>(e),
                None => Ok::<(), PlistError>(()),
            },
            r is Err ==> final(store).extends(*old(store)) && forall|n: usize|
                n < old(store).size() ==> final(store).live(n) == old(store).live(n),
            r is Ok ==> {
                let c = self.slot(old(store))->0;
                let sk = source.keys(old(store));
                let sv = source.nodes(old(store));
                &&& self.slot(final(store)) == Some(c)
                &&& final(store).parent(c) == old(store).parent(c)
                &&& final(store).kept_but(*old(store), c)
                &&& forall|j: int|
                    0 <= j < sk.len() ==> self.lookup(final(store), #[trigger] sk[j]) is Some
                        && Store::copy_of(
                        *old(store),
                        sv[j],
                        *final(store),
                        self.lookup(final(store), sk[j])->0,
                        old(store).size() as int,
                        final(store).size() as int,
                    )
                &&& forall|key: Seq<char>|
                    !sk.contains(key) ==> #[trigger] self.lookup(final(store), key) == self.lookup(
                        old(store),
                        key,
                    )
                &&& forall|key: Seq<char>|
                    sk.contains(key) && #[trigger] self.lookup(old(store), key) is Some
                        ==> !final(store).occupied(self.lookup(old(store), key)->0)
                &&& forall|x: usize|
                    x < old(store).size() ==> final(store).live(x) == (old(store).live(x) && !old(store).below_value_of(c, sk, sk.len() as int, x))
                &&& self.keys(old(store)).is_prefix_of(self.keys(final(store)))
            },
    {
        proof {
            store.lemma_extends_self();
        }
        let c = match self.locate(store) {
            Ok(c) => c,
            Err(e) => {
                return Err(e);
            },
        };
        let s = match source.locate(store) {
            Ok(s) => s,
            Err(e) => {
                return Err(e);
            },
        };
        if store.merge_into(c, s) {
            proof {
                let sk = source.keys(old(store));
                let sv = source.nodes(old(store));
                assert(self.slot(store) == Some(c));
                assert forall|key: Seq<char>| #[trigger]
                    self.lookup(store, key) == store.dict_value(c, key) by {}
                assert forall|key: Seq<char>| #[trigger]
                    self.lookup(old(store), key) == old(store).dict_value(c, key) by {}
                assert forall|j: int| 0 <= j < sk.len() implies self.lookup(
                    store,
                    #[trigger] sk[j],
                ) is Some && Store::copy_of(
                    *old(store),
                    sv[j],
                    *store,
                    self.lookup(store, sk[j])->0,
                    old(store).size() as int,
                    store.size() as int,
                ) by {
                    assert(self.lookup(store, sk[j]) == store.dict_value(c, sk[j]));
                }
                assert forall|key: Seq<char>| !sk.contains(key) implies #[trigger] self.lookup(
                    store,
                    key,
                ) == self.lookup(old(store), key) by {
                    assert(store.dict_value(c, key) == old(store).dict_value(c, key));
                }
                assert forall|key: Seq<char>|
                    sk.contains(key) && #[trigger] self.lookup(
                        old(store),
                        key,
                    ) is Some implies !store.occupied(self.lookup(old(store), key)->0) by {
                    assert(old(store).dict_value(c, key) is Some);
                }
            }
            Ok(())
        } else {
            Err(PlistError::NoMemory)
        }
    }

    /// A cursor that stands before the first entry.
    pub fn into_iter(self) -> (it: PlistDictIter)
        ensures
            it.source() == self.handle(),
            it.position() == 0,
    {
        PlistDictIter { p: self.inner, pos: 0 }
    }
}

/// Writing an entry under a key of type `T`.
pub trait DictSetter<T> {
    /// The characters of a key.
    spec fn key_chars(key: T) -> Seq<char>;

    /// What holds after `value` was put under the key `key`.
    spec fn was_set(
        &self,
        before: &Store,
        after: &Store,
        key: Seq<char>,
        value_before: Plist,
        value_after: Plist,
        r: Result<(), PlistError>,
    ) -> bool;

    /// Puts the node of `value` under `key`.
    fn set(&self, store: &mut Store, key: T, value: &mut Plist) -> (r: Result<(), PlistError>)
        requires
            old(store).wf(),
        ensures
            final(store).wf(),
            self.was_set(
                old(store),
                final(store),
                Self::key_chars(key),
                *old(value),
                *final(value),
                r,
            ),
    ;
}

/// Reading the value under a key of type `T`.
pub trait DictGetter<T> {
    /// The characters of a key.
    spec fn key_chars(key: T) -> Seq<char>;

    /// The slot of the value under `key`, if the key is there.
    spec fn found(&self, store: &Store, key: Seq<char>) -> Option<usize>;

    /// A view of the value under `key`; nothing where the key is not there.
    fn get(&self, store: &Store, key: T) -> (r: Option<Plist>)
        requires
            store.wf(),
        ensures
            match r {
                Some(h) => h.is_view() && self.found(store, Self::key_chars(key)) is Some
                    && h.target(store) == self.found(store, Self::key_chars(key)),
                None => self.found(store, Self::key_chars(key)) is None,
            },
    ;
}

/// Taking out the entry under a key of type `T`.
pub trait DictRemove<T> {
    /// The characters of a key.
    spec fn key_chars(key: T) -> Seq<char>;

    /// What holds after the entry under `key` was taken out.
    spec fn was_removed(
        &self,
        before: &Store,
        after: &Store,
        key: Seq<char>,
        r: Result<(), PlistError>,
    ) -> bool;

    /// Takes the entry under `key` out of the dictionary.
    fn remove(&self, store: &mut Store, key: T) -> (r: Result<(), PlistError>)
        requires
            old(store).wf(),
        ensures
            final(store).wf(),
            self.was_removed(old(store), final(store), Self::key_chars(key), r),
    ;
}

impl<'a> DictSetter<&'a str> for PlistDict {
    open spec fn key_chars(key: &'a str) -> Seq<char> {
        key@
    }

    open spec fn was_set(
        &self,
        before: &Store,
        after: &Store,
        key: Seq<char>,
        value_before: Plist,
        value_after: Plist,
        r: Result<(), PlistError>,
    ) -> bool {
        self.set_done(before, after, key, value_before, value_after, r)
    }

    fn set(&self, store: &mut Store, key: &'a str, value: &mut Plist) -> (r: Result<
        (),
        PlistError,
    >) {
        PlistDict::set(self, store, key, value)
    }
}

impl DictSetter<String> for PlistDict {
    open spec fn key_chars(key: String) -> Seq<char> {
        key@
    }

    open spec fn was_set(
        &self,
        before: &Store,
        after: &Store,
        key: Seq<char>,
        value_before: Plist,
        value_after: Plist,
        r: Result<(), PlistError>,
    ) -> bool {
        self.set_done(before, after, key, value_before, value_after, r)
    }

    fn set(&self, store: &mut Store, key: String, value: &mut Plist) -> (r: Result<
        (),
        PlistError,
    >) {
        PlistDict::set(self, store, key.as_str(), value)
    }
}

impl<'a> DictGetter<&'a str> for PlistDict {
    open spec fn key_chars(key: &'a str) -> Seq<char> {
        key@
    }

    open spec fn found(&self, store: &Store, key: Seq<char>) -> Option<usize> {
        self.lookup(store, key)
    }

    fn get(&self, store: &Store, key: &'a str) -> (r: Option<Plist>) {
        PlistDict::get(self, store, key)
    }
}

impl DictGetter<String> for PlistDict {
    open spec fn key_chars(key: String) -> Seq<char> {
        key@
    }

    open spec fn found(&self, store: &Store, key: Seq<char>) -> Option<usize> {
        self.lookup(store, key)
    }

    fn get(&self, store: &Store, key: String) -> (r: Option<Plist>) {
        PlistDict::get(self, store, key.as_str())
    }
}

impl<'a> DictRemove<&'a str> for PlistDict {
    open spec fn key_chars(key: &'a str) -> Seq<char> {
        key@
    }

    open spec fn was_removed(
        &self,
        before: &Store,
        after: &Store,
        key: Seq<char>,
        r: Result<(), PlistError>,
    ) -> bool {
        self.remove_done(before, after, key, r)
    }

    fn remove(&self, store: &mut Store, key: &'a str) -> (r: Result<(), PlistError>) {
        PlistDict::remove(self, store, key)
    }
}

impl DictRemove<String> for PlistDict {
    open spec fn key_chars(key: String) -> Seq<char> {
        key@
    }

    open spec fn was_removed(
        &self,
        before: &Store,
        after: &Store,
        key: Seq<char>,
        r: Result<(), PlistError>,
    ) -> bool {
        self.remove_done(before, after, key, r)
    }

    fn remove(&self, store: &mut Store, key: String) -> (r: Result<(), PlistError>) {
        PlistDict::remove(self, store, key.as_str())
    }
}

impl PlistDictIter {
    /// The handle of the dictionary that this cursor walks.
    pub closed spec fn source(&self) -> Plist {
        self.p
    }

    /// The number of entries that this cursor has passed.
    pub closed spec fn position(&self) -> nat {
        self.pos as nat
    }

    /// A view of the next entry's value beside its key, and a step forward;
    /// nothing, and no step, behind the last entry.
    pub fn next(&mut self, store: &Store) -> (r: Option<(String, Plist)>)
        requires
            store.wf(),
        ensures
            final(self).source() == old(self).source(),
            match r {
                Some((key, h)) => {
                    let at = old(self).position() as int;
                    &&& at < dict_nodes(old(self).source(), store).len()
                    &&& key@ == dict_keys(old(self).source(), store)[at]
                    &&& h.is_view()
                    &&& h.target(store) == Some(dict_nodes(old(self).source(), store)[at])
                    &&& final(self).position() == old(self).position() + 1
                },
                None => {
                    &&& old(self).position() >= dict_nodes(old(self).source(), store).len()
                    &&& final(self).position() == old(self).position()
                },
            },
    {
        let c = match self.p.as_ptr(store) {
            Ok(c) => c,
            Err(_) => {
                return None;
            },
        };
        proof {
            store.lemma_live_occupied(c);
        }
        if store.kind(c) != PlistType::Dictionary {
            return None;
        }
        if self.pos < store.child_count(c) {
            proof {
                store.lemma_child_live(c, self.pos as int);
            }
            let key = store.key_at(c, self.pos);
            let h = Plist::new_with_weak(store.child_at(c, self.pos));
            self.pos = self.pos + 1;
            Some((key, h))
        } else {
            None
        }
    }

    /// Ends the walk and gives back the handle of the dictionary.
    pub fn into_plist(self) -> (r: Plist)
        ensures
            r == self.source(),
    {
        self.p
    }
}

} // verus!
