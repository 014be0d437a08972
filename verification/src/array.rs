//! Arrays: the ordered container.

use vstd::prelude::*;
use crate::plist_error::PlistError;
use crate::store::Content;
use crate::store::Store;
use crate::Plist;
use crate::PlistType;

verus! {

/// A handle that is known to have been an array when it was narrowed.
pub struct PlistArray {
    pub(crate) inner: Plist,
}

/// A cursor over the elements of an array, from the first to the last.
pub struct PlistArrayIter {
    pub(crate) p: Plist,
    pub(crate) pos: usize,
}

/// The slot of the live array that `handle` reaches in `store`.
pub open spec fn array_slot(handle: Plist, store: &Store) -> Option<usize> {
    match handle.target(store) {
        Some(c) => if store.content(c) is Array {
            Some(c)
        } else {
            None
        },
        None => None,
    }
}

/// The slots of the elements of the live array that `handle` reaches in
/// `store`, in order; empty where it reaches none.
pub open spec fn array_items(handle: Plist, store: &Store) -> Seq<usize> {
    match array_slot(handle, store) {
        Some(c) => store.content(c).children(),
        None => Seq::empty(),
    }
}

/// Why the tree of `item` cannot be copied into a new array: the handle
/// reaches no live node, or its node has the highest rank there is.
pub open spec fn item_error(store: &Store, item: Plist) -> Option<PlistError> {
    match item.target(store) {
        None => Some(PlistError::Dealloc),
        Some(n) => if store.top_ranked(n) {
            Some(PlistError::NoMemory)
        } else {
            None
        },
    }
}

/// The error of the first of `items` that cannot be copied, if there is one.
pub open spec fn first_error(store: &Store, items: Seq<Plist>) -> Option<PlistError>
    decreases items.len(),
{
    if items.len() == 0 {
        None
    } else {
        match first_error(store, items.drop_last()) {
            Some(e) => Some(e),
            None => item_error(store, items.last()),
        }
    }
}

/// Where no item has an error, each single one has none.
pub proof fn lemma_no_error(store: &Store, items: Seq<Plist>, i: int)
    requires
        first_error(store, items) is None,
        0 <= i < items.len(),
    ensures
        item_error(store, items[i]) is None,
    decreases items.len(),
{
    if i < items.len() - 1 {
        lemma_no_error(store, items.drop_last(), i);
    }
}

/// An error among the first items is the error of all of them.
pub proof fn lemma_first_error_stays(store: &Store, items: Seq<Plist>, k: int)
    requires
        0 <= k <= items.len(),
        first_error(store, items.take(k)) is Some,
    ensures
        first_error(store, items) == first_error(store, items.take(k)),
    decreases items.len() - k,
{
    if k < items.len() {
        assert(items.take(k + 1).drop_last() =~= items.take(k));
        lemma_first_error_stays(store, items, k + 1);
    } else {
        assert(items.take(k) =~= items);
    }
}

impl Plist {
    /// A new array whose elements are copies of the trees of `array`, in
    /// order. The handles in `array` keep what they own. Where one of them
    /// cannot be copied, nothing changes.
    pub fn from_array(store: &mut Store, array: &Vec<Plist>) -> (r: Result<Plist, PlistError>)
        requires
            old(store).wf(),
        ensures
            final(store).wf(),
            match r {
                Ok(h) => {
                    let dst = h.node()->0;
                    let y = final(store).content(dst).children();
                    &&& first_error(old(store), array@) is None
                    &&& h.is_owning()
                    &&& h.node() is Some
                    &&& dst == old(store).size()
                    &&& h.target(final(store)) == Some(dst)
                    &&& final(store).parent(dst) is None
                    &&& final(store).content(dst) is Array
                    &&& y.len() == array@.len()
                    &&& forall|i: int|
                        0 <= i < array@.len() ==> Store::copy_of(
                            *old(store),
                            (#[trigger] array@[i]).target(old(store))->0,
                            *final(store),
                            y[i],
                            dst + 1,
                            final(store).size() as int,
                        )
                    &&& final(store).extends(*old(store))
                    &&& forall|n: usize|
                        n < old(store).size() ==> final(store).live(n) == old(store).live(n)
                },
                Err(e) => first_error(old(store), array@) == Some(e) && final(store).unchanged(
                    *old(store),
                ),
            },
    {
        let mut i: usize = 0;
        while i < array.len()
            invariant
                i <= array.len(),
                store.wf(),
                *store == *old(store),
                first_error(store, array@.take(i as int)) is None,
            decreases array.len() - i,
        {
            proof {
                assert(array@.take(i + 1).drop_last() =~= array@.take(i as int));
                assert(array@.take(i + 1).last() == array@[i as int]);
            }
            match array[i].as_ptr(store) {
                Ok(n) => {
                    proof {
                        store.lemma_live_occupied(n);
                    }
                    if store.is_top_ranked(n) {
                        proof {
                            lemma_first_error_stays(store, array@, i + 1);
                        }
                        return Err(PlistError::NoMemory);
                    }
                },
                Err(e) => {
                    proof {
                        lemma_first_error_stays(store, array@, i + 1);
                    }
                    return Err(e);
                },
            }
            i = i + 1;
        }
        proof {
            assert(array@.take(i as int) =~= array@);
        }
        let h = Plist::new_array(store);
        let dst = match h.named() {
            Some(dst) => dst,
            None => 0,
        };
        proof {
            store.lemma_live_occupied(dst);
        }
        let mut i: usize = 0;
        while i < array.len()
            invariant
                i <= array.len(),
                old(store).wf(),
                first_error(old(store), array@) is None,
                store.wf(),
                store.extends(*old(store)),
                dst == old(store).size(),
                store.size() > dst,
                store.live(dst),
                store.parent(dst) is None,
                store.content(dst) is Array,
                store.content(dst).children().len() == i,
                h.is_owning(),
                h.node() == Some(dst),
                forall|n: usize| n < old(store).size() ==> store.live(n) == old(store).live(n),
                forall|j: int|
                    0 <= j < i ==> Store::copy_of(
                        *old(store),
                        (#[trigger] array@[j]).target(old(store))->0,
                        *store,
                        store.content(dst).children()[j],
                        dst + 1,
                        store.size() as int,
                    ),
            decreases array.len() - i,
        {
            let ghost s_a = *store;
            let ghost src = array@[i as int].target(old(store))->0;
            proof {
                lemma_no_error(old(store), array@, i as int);
                old(store).lemma_live_occupied(src);
                old(store).lemma_occupied_bound(src);
                store.lemma_extends_kept(*old(store), src);
                store.lemma_live_occupied(dst);
                store.lemma_root_room(dst, src);
            }
            let n = match array[i].as_ptr(store) {
                Ok(n) => n,
                Err(_) => 0,
            };
            let placed = store.copy_under(dst, n, i, String::new());
            proof {
                let d = placed->0;
                let y_a = s_a.content(dst).children();
                let y = store.content(dst).children();
                assert(y == y_a.insert(i as int, d));
                store.lemma_extends_but_root(s_a, *old(store), dst);
                store.lemma_extends_but_kept(s_a, dst);
                store.lemma_root_live(dst);
                assert forall|j: int| 0 <= j < i + 1 implies Store::copy_of(
                    *old(store),
                    (#[trigger] array@[j]).target(old(store))->0,
                    *store,
                    y[j],
                    dst + 1,
                    store.size() as int,
                ) by {
                    let a_j = array@[j].target(old(store))->0;
                    lemma_no_error(old(store), array@, j);
                    old(store).lemma_live_occupied(a_j);
                    if j < i {
                        assert(y[j] == y_a[j]);
                        old(store).lemma_extends_self();
                        Store::lemma_copy_moves(
                            *old(store),
                            *old(store),
                            a_j,
                            s_a,
                            *store,
                            y_a[j],
                            dst + 1,
                            s_a.size() as int,
                            dst + 1,
                            store.size() as int,
                        );
                    } else {
                        assert(y[j] == d);
                        Store::lemma_copy_moves(
                            *old(store),
                            s_a,
                            a_j,
                            *store,
                            *store,
                            d,
                            d as int,
                            store.size() as int,
                            dst + 1,
                            store.size() as int,
                        );
                    }
                }
            }
            i = i + 1;
        }
        Ok(h)
    }

    /// Narrows this handle to an array. Where its node is no live array, the
    /// handle is released and nothing is returned.
    pub fn array(self, store: &mut Store) -> (r: Option<PlistArray>)
        requires
            old(store).wf(),
        ensures
            final(store).wf(),
            match r {
                Some(a) => {
                    &&& a.handle() == self
                    &&& a.slot(old(store)) is Some
                    &&& final(store).unchanged(*old(store))
                },
                None => {
                    &&& !(self.reading(old(store)) matches Some(Content::Array(_)))
                    &&& self.released(old(store), final(store))
                },
            },
    {
        if self.plist_type(store) != PlistType::Array {
            self.release(store);
            return None;
        }
        Some(PlistArray { inner: self })
    }
}

impl PlistArray {
    /// The handle that was narrowed.
    pub closed spec fn handle(&self) -> Plist {
        self.inner
    }

    /// The slot of the live array that this container reaches in `store`.
    pub open spec fn slot(&self, store: &Store) -> Option<usize> {
        array_slot(self.handle(), store)
    }

    /// The slots of the elements, in order; empty where no live array is
    /// reached.
    pub open spec fn items(&self, store: &Store) -> Seq<usize> {
        array_items(self.handle(), store)
    }

    /// Why no element can be read or written: the handle reaches no live
    /// node, or one that is no array.
    pub open spec fn gate(&self, store: &Store) -> Option<PlistError> {
        match self.handle().target(store) {
            None => Some(PlistError::Dealloc),
            Some(c) => if store.content(c) is Array {
                None
            } else {
                Some(PlistError::InvalidArg)
            },
        }
    }

    /// Why `item` cannot be put at position `index`, which may be as large as
    /// `limit`.
    pub open spec fn put_error(&self, store: &Store, item: Plist, index: int, limit: int) -> Option<
        PlistError,
    > {
        match self.gate(store) {
            Some(e) => Some(e),
            None => if index > limit {
                Some(PlistError::InvalidArg)
            } else {
                item.transfer_error(store, self.slot(store)->0)
            },
        }
    }

    /// The slot of the live array that this container reaches, or why it
    /// reaches none.
    fn locate(&self, store: &Store) -> (r: Result<usize, PlistError>)
        requires
            store.wf(),
        ensures
            r == match self.gate(store) {
                Some(e) => Err::<usize, PlistError>(e),
                None => Ok::<usize, PlistError>(self.slot(store)->0),
            },
            r matches Ok(c) ==> store.live(c) && store.occupied(c) && self.slot(store) == Some(c),
    {
        let c = match self.inner.as_ptr(store) {
            Ok(c) => c,
            Err(e) => {
                return Err(e);
            },
        };
        proof {
            store.lemma_live_occupied(c);
        }
        if store.kind(c) != PlistType::Array {
            return Err(PlistError::InvalidArg);
        }
        Ok(c)
    }

    /// Gives back the handle that was narrowed.
    pub fn into_plist(self) -> (r: Plist)
        ensures
            r == self.handle(),
    {
        self.inner
    }

    /// The number of elements; zero where no live array is reached.
    pub fn len(&self, store: &Store) -> (n: usize)
        requires
            store.wf(),
        ensures
            n == self.items(store).len(),
    {
        match self.locate(store) {
            Ok(c) => store.child_count(c),
            Err(_) => 0,
        }
    }

    /// A view of the element at position `index`; nothing where the array
    /// has no such position.
    pub fn get(&self, store: &Store, index: usize) -> (r: Option<Plist>)
        requires
            store.wf(),
        ensures
            match r {
                Some(h) => {
                    &&& index < self.items(store).len()
                    &&& h.is_view()
                    &&& h.target(store) == Some(self.items(store)[index as int])
                },
                None => index >= self.items(store).len(),
            },
    {
        match self.locate(store) {
            Ok(c) => {
                if index < store.child_count(c) {
                    proof {
                        store.lemma_child_live(c, index as int);
                    }
                    Some(Plist::new_with_weak(store.child_at(c, index)))
                } else {
                    None
                }
            },
            Err(_) => None,
        }
    }

    /// Puts the node of `item` in the place of the element at position
    /// `index`. The element that stood there is freed with everything below
    /// it, and `item` becomes a view of its node, which the array now owns.
    pub fn set(&self, store: &mut Store, item: &mut Plist, index: u32) -> (r: Result<
        (),
        PlistError,
    >)
        requires
            old(store).wf(),
        ensures
            final(store).wf(),
            r == match self.put_error(
                old(store),
                *old(item),
                index as int,
                self.items(old(store)).len() - 1,
            ) {
                Some(e) => Err::<(), PlistError>(e),
                None => Ok::<(), PlistError>(()),
            },
            r is Err ==> final(store).unchanged(*old(store)) && *final(item) == *old(item),
            r is Ok ==> {
                let c = self.slot(old(store))->0;
                let n = old(item).target(old(store))->0;
                let k = self.items(old(store))[index as int];
                &&& final(item).is_view()
                &&& final(item).node() == Some(n)
                &&& self.items(final(store)) == self.items(old(store)).update(index as int, n)
                &&& self.items(final(store)).len() == self.items(old(store)).len()
                &&& final(store).content(n) == old(store).content(n)
                &&& final(store).parent(n) == Some(c)
                &&& final(store).reaches(n, c)
                &&& final(store).ranks_kept(*old(store), c)
                &&& final(store).parent(c) == old(store).parent(c)
                &&& final(store).same_but3(*old(store), c, n, k)
                &&& forall|i: usize|
                    final(store).live(i) == (old(store).live(i) && !old(store).reaches(i, k))
            },
    {
        let c = match self.locate(store) {
            Ok(c) => c,
            Err(e) => {
                return Err(e);
            },
        };
        if index as usize >= store.child_count(c) {
            return Err(PlistError::InvalidArg);
        }
        match Plist::transfer_over(store, c, item, index as usize) {
            Ok(k) => {
                proof {
                    old(store).lemma_reaches_self(c);
                    old(store).lemma_child_live(c, index as int);
                    old(store).lemma_child_below(c, index as int);
                }
                Ok(())
            },
            Err(e) => Err(e),
        }
    }

    /// Puts the node of `item` behind the last element. `item` becomes a view
    /// of its node, which the array now owns.
    pub fn append(&self, store: &mut Store, item: &mut Plist) -> (r: Result<(), PlistError>)
        requires
            old(store).wf(),
        ensures
            final(store).wf(),
            r == match self.put_error(old(store), *old(item), 0, 0) {
                Some(e) => Err::<(), PlistError>(e),
                None => Ok::<(), PlistError>(()),
            },
            r is Err ==> final(store).unchanged(*old(store)) && *final(item) == *old(item),
            r is Ok ==> {
                let c = self.slot(old(store))->0;
                let n = old(item).target(old(store))->0;
                &&& final(item).is_view()
                &&& final(item).node() == Some(n)
                &&& self.items(final(store)) == self.items(old(store)).push(n)
                &&& self.items(final(store)).len() == self.items(old(store)).len() + 1
                &&& self.items(final(store))[self.items(old(store)).len() as int] == n
                &&& final(store).content(n) == old(store).content(n)
                &&& final(store).parent(n) == Some(c)
                &&& final(store).reaches(n, c)
                &&& final(store).ranks_kept(*old(store), c)
                &&& final(store).parent(c) == old(store).parent(c)
                &&& final(store).same_but2(*old(store), c, n)
                &&& forall|i: usize| final(store).live(i) == old(store).live(i)
            },
    {
        let c = match self.locate(store) {
            Ok(c) => c,
            Err(e) => {
                return Err(e);
            },
        };
        let end = store.child_count(c);
        let r = Plist::transfer(store, c, item, end, String::new());
        proof {
            let old_items = self.items(old(store));
            assert(old_items.insert(end as int, old(item).node()->0) =~= old_items.push(
                old(item).node()->0,
            ));
        }
        r
    }

    /// Puts the node of `item` at position `index`, before the element that
    /// stood there; every element from that position on moves one position
    /// later. `item` becomes a view of its node, which the array now owns.
    pub fn insert(&self, store: &mut Store, item: &mut Plist, index: u32) -> (r: Result<
        (),
        PlistError,
    >)
        requires
            old(store).wf(),
        ensures
            final(store).wf(),
            r == match self.put_error(
                old(store),
                *old(item),
                index as int,
                self.items(old(store)).len() as int,
            ) {
                Some(e) => Err::<(), PlistError>(e),
                None => Ok::<(), PlistError>(()),
            },
            r is Err ==> final(store).unchanged(*old(store)) && *final(item) == *old(item),
            r is Ok ==> {
                let c = self.slot(old(store))->0;
                let n = old(item).target(old(store))->0;
                let before = self.items(old(store));
                let after = self.items(final(store));
                &&& final(item).is_view()
                &&& final(item).node() == Some(n)
                &&& after == before.insert(index as int, n)
                &&& after.len() == before.len() + 1
                &&& after[index as int] == n
                &&& forall|j: int| 0 <= j < index ==> after[j] == before[j]
                &&& forall|j: int| index <= j < before.len() ==> after[j + 1] == before[j]
                &&& final(store).content(n) == old(store).content(n)
                &&& final(store).parent(n) == Some(c)
                &&& final(store).reaches(n, c)
                &&& final(store).ranks_kept(*old(store), c)
                &&& final(store).parent(c) == old(store).parent(c)
                &&& final(store).same_but2(*old(store), c, n)
                &&& forall|i: usize| final(store).live(i) == old(store).live(i)
            },
    {
        let c = match self.locate(store) {
            Ok(c) => c,
            Err(e) => {
                return Err(e);
            },
        };
        if index as usize > store.child_count(c) {
            return Err(PlistError::InvalidArg);
        }
        Plist::transfer(store, c, item, index as usize, String::new())
    }

    /// Takes the element at position `index` out of the array and frees it
    /// with everything below it; every later element moves one position
    /// earlier.
    pub fn remove(&self, store: &mut Store, index: u32) -> (r: Result<(), PlistError>)
        requires
            old(store).wf(),
        ensures
            final(store).wf(),
            r == match self.gate(old(store)) {
                Some(e) => Err::<(), PlistError>(e),
                None => if index < self.items(old(store)).len() {
                    Ok::<(), PlistError>(())
                } else {
                    Err::<(), PlistError>(PlistError::InvalidArg)
                },
            },
            r is Err ==> final(store).unchanged(*old(store)),
            r is Ok ==> {
                let c = self.slot(old(store))->0;
                let before = self.items(old(store));
                let after = self.items(final(store));
                let k = before[index as int];
                &&& after == before.remove(index as int)
                &&& after.len() == before.len() - 1
                &&& forall|j: int| 0 <= j < index ==> after[j] == before[j]
                &&& forall|j: int| index <= j < after.len() ==> after[j] == before[j + 1]
                &&& !final(store).occupied(k)
                &&& final(store).parent(c) == old(store).parent(c)
                &&& final(store).same_ranks(*old(store))
                &&& final(store).same_but2(*old(store), c, k)
                &&& forall|i: usize|
                    final(store).live(i) == (old(store).live(i) && !old(store).reaches(i, k))
            },
    {
        let c = match self.locate(store) {
            Ok(c) => c,
            Err(e) => {
                return Err(e);
            },
        };
        if index as usize >= store.child_count(c) {
            return Err(PlistError::InvalidArg);
        }
        let k = store.drop_child(c, index as usize);
        proof {
            old(store).lemma_child_below(c, index as int);
        }
        Ok(())
    }

    /// A cursor that stands before the first element.
    pub fn into_iter(self) -> (it: PlistArrayIter)
        ensures
            it.source() == self.handle(),
            it.position() == 0,
    {
        PlistArrayIter { p: self.inner, pos: 0 }
    }
}

impl PlistArrayIter {
    /// The handle of the array that this cursor walks.
    pub closed spec fn source(&self) -> Plist {
        self.p
    }

    /// The number of elements that this cursor has passed.
    pub closed spec fn position(&self) -> nat {
        self.pos as nat
    }

    /// The slots of the elements that this cursor walks in `store`.
    pub open spec fn items(&self, store: &Store) -> Seq<usize> {
        array_items(self.source(), store)
    }

    /// A view of the next element, and a step forward; nothing, and no step,
    /// behind the last element.
    pub fn next(&mut self, store: &Store) -> (r: Option<Plist>)
        requires
            store.wf(),
        ensures
            final(self).source() == old(self).source(),
            match r {
                Some(h) => {
                    &&& old(self).position() < old(self).items(store).len()
                    &&& h.is_view()
                    &&& h.target(store) == Some(old(self).items(store)[old(self).position() as int])
                    &&& final(self).position() == old(self).position() + 1
                },
                None => {
                    &&& old(self).position() >= old(self).items(store).len()
                    &&& final(self).position() == old(self).position()
                },
            },
    {
        let c = match self.p.as_ptr(store) {
            Ok(c) => c,
            Err(_) => {
                return None;
            },
        };
        proof {
            store.lemma_live_occupied(c);
        }
        if store.kind(c) != PlistType::Array {
            return None;
        }
        if self.pos < store.child_count(c) {
            proof {
                store.lemma_child_live(c, self.pos as int);
            }
            let h = Plist::new_with_weak(store.child_at(c, self.pos));
            self.pos = self.pos + 1;
            Some(h)
        } else {
            None
        }
    }

    /// Ends the walk and gives back the handle of the array.
    pub fn into_plist(self) -> (r: Plist)
        ensures
            r == self.source(),
    {
        self.p
    }
}

} // verus!
