//! Property-list trees: typed scalar leaves, arrays and dictionaries, kept in
//! a node store and reached through owning and viewing handles.
//!
//! Every node lives in one slot of a [`store::Store`]. A [`Plist`] names a
//! slot and either owns the tree below it or views it. A node that is put
//! into an array or a dictionary belongs to that container's tree from then
//! on, and the handle that brought it becomes a view. Releasing the owner of
//! a root ends the life of the whole tree at once: every view into it then
//! reaches nothing, and says so, instead of reading a stranger's node.
//!
//! A tree can be written down as flat [`record::Record`]s and built again
//! from them; what is built from the records of a tree is a copy of it.
//!
//! Each node has a rank below that of its container. The ranks order every
//! walk from a node toward its root, and they are what the store raises when
//! a tree goes below a container of a lower rank.

use vstd::prelude::*;
use crate::plist_error::PlistError;
use crate::store::Content;
use crate::store::Store;

pub mod array;
pub mod dict;
pub mod laws;
pub mod plist_error;
pub mod plist_node_type;
pub mod record;
pub mod store;
pub mod value;

verus! {

/// The kind of the node that a handle reaches.
#[derive(Debug, Clone, Copy, PartialEq, Eq, Structural)]
pub enum PlistType {
    Boolean,
    UInt,
    Real,
    String,
    Array,
    Dictionary,
    Date,
    Data,
    Key,
    UID,
    Null,
    /// The tag of a handle that reaches no node.
    NoNode,
}

impl PlistType {
    /// The kind that a tag number of the codec stands for; tags are numbered
    /// in the order of the variants, from zero.
    pub open spec fn of_tag(tag: u32) -> PlistType {
        if tag == 0 {
            PlistType::Boolean
        } else if tag == 1 {
            PlistType::UInt
        } else if tag == 2 {
            PlistType::Real
        } else if tag == 3 {
            PlistType::String
        } else if tag == 4 {
            PlistType::Array
        } else if tag == 5 {
            PlistType::Dictionary
        } else if tag == 6 {
            PlistType::Date
        } else if tag == 7 {
            PlistType::Data
        } else if tag == 8 {
            PlistType::Key
        } else if tag == 9 {
            PlistType::UID
        } else if tag == 10 {
            PlistType::Null
        } else {
            PlistType::NoNode
        }
    }

    /// Maps a tag number of the codec to its kind. A number outside the known
    /// tags signals a corrupted node and is not accepted.
    pub fn from(plist_type: u32) -> (r: PlistType)
        requires
            plist_type < crate::plist_node_type::KNOWN_TAGS,
        ensures
            r == Self::of_tag(plist_type),
    {
        if plist_type == 0 {
            PlistType::Boolean
        } else if plist_type == 1 {
            PlistType::UInt
        } else if plist_type == 2 {
            PlistType::Real
        } else if plist_type == 3 {
            PlistType::String
        } else if plist_type == 4 {
            PlistType::Array
        } else if plist_type == 5 {
            PlistType::Dictionary
        } else if plist_type == 6 {
            PlistType::Date
        } else if plist_type == 7 {
            PlistType::Data
        } else if plist_type == 8 {
            PlistType::Key
        } else if plist_type == 9 {
            PlistType::UID
        } else if plist_type == 10 {
            PlistType::Null
        } else {
            PlistType::NoNode
        }
    }
}

/// A handle on one node. It either owns the tree below that node and is the
/// one to free it, or views a node of a tree that another handle owns, or
/// reaches nothing at all.
pub struct Plist {
    pub(crate) p: Option<usize>,
    pub(crate) raw_p: Option<usize>,
}

impl Plist {
    /// The slot that this handle names, owned or viewed.
    pub closed spec fn node(&self) -> Option<usize> {
        match self.p {
            Some(p) => Some(p),
            None => self.raw_p,
        }
    }

    /// Whether this handle owns the tree below its node.
    pub closed spec fn is_owning(&self) -> bool {
        self.p is Some
    }

    /// Whether this handle views a node without owning it.
    pub open spec fn is_view(&self) -> bool {
        !self.is_owning() && self.node() is Some
    }

    /// The live node that this handle reaches in `store`, if it reaches one.
    pub open spec fn target(&self, store: &Store) -> Option<usize> {
        match self.node() {
            Some(id) => if store.live(id) {
                Some(id)
            } else {
                None
            },
            None => None,
        }
    }

    /// The content of the node that this handle reaches in `store`.
    pub open spec fn reading(&self, store: &Store) -> Option<Content> {
        match self.target(store) {
            Some(id) => Some(store.content(id)),
            None => None,
        }
    }

    /// Why the node of this handle cannot go below the container in slot `c`,
    /// if it cannot: the handle reaches no live node; the node already stands
    /// in a container, or `c` stands below it; or the store has no room.
    pub open spec fn transfer_error(&self, store: &Store, c: usize) -> Option<PlistError> {
        match self.target(store) {
            None => Some(PlistError::Dealloc),
            Some(r) => if store.parent(r) is Some || store.reaches(c, r) {
                Some(PlistError::InvalidArg)
            } else if !store.room_for(c, r) {
                Some(PlistError::NoMemory)
            } else {
                None
            },
        }
    }

    /// An owning handle on the node in slot `plist`.
    pub fn new(plist: usize) -> (r: Plist)
        ensures
            r.is_owning(),
            r.node() == Some(plist),
    {
        Plist { p: Some(plist), raw_p: None }
    }

    /// A viewing handle on the node in slot `plist`.
    pub fn new_with_weak(plist: usize) -> (r: Plist)
        ensures
            r.is_view(),
            r.node() == Some(plist),
    {
        Plist { p: None, raw_p: Some(plist) }
    }

    /// The slot that this handle names, whatever has become of its node.
    pub(crate) fn named(&self) -> (r: Option<usize>)
        ensures
            r == self.node(),
    {
        match self.p {
            Some(p) => Some(p),
            None => self.raw_p,
        }
    }

    /// An owning handle names a slot.
    pub proof fn lemma_owner_names(&self)
        ensures
            self.is_owning() ==> self.node() is Some,
    {
    }

    /// Whether this handle owns the tree below its node.
    pub fn owns(&self) -> (b: bool)
        ensures
            b == self.is_owning(),
    {
        self.p.is_some()
    }

    /// Gives up ownership: an owning handle becomes a view of the same node,
    /// any other handle stays as it is.
    pub fn replace_weak(&mut self)
        ensures
            !final(self).is_owning(),
            final(self).node() == old(self).node(),
            old(self).is_owning() ==> final(self).is_view(),
            !old(self).is_owning() ==> *final(self) == *old(self),
    {
        if let Some(p) = self.p {
            self.raw_p = Some(p);
            self.p = None;
        }
    }

    /// The live node that this handle reaches in `store`, or `Dealloc` where
    /// it names no slot or the tree around its node has been freed.
    pub fn as_ptr(&self, store: &Store) -> (r: Result<usize, PlistError>)
        requires
            store.wf(),
        ensures
            r == match self.target(store) {
                Some(id) => Ok::<usize, PlistError>(id),
                None => Err::<usize, PlistError>(PlistError::Dealloc),
            },
    {
        match self.named() {
            Some(id) => if store.is_live(id) {
                Ok(id)
            } else {
                Err(PlistError::Dealloc)
            },
            None => Err(PlistError::Dealloc),
        }
    }

    /// The type tag of the node that this handle reaches, `NoNode` where it
    /// reaches none.
    pub fn plist_type(&self, store: &Store) -> (t: PlistType)
        requires
            store.wf(),
        ensures
            t == match self.reading(store) {
                Some(c) => c.tag(),
                None => PlistType::NoNode,
            },
    {
        match self.as_ptr(store) {
            Ok(id) => {
                proof {
                    store.lemma_live_occupied(id);
                }
                store.kind(id)
            },
            Err(_) => PlistType::NoNode,
        }
    }

    /// Copies the tree below the node of this handle into fresh slots and
    /// returns an owning handle on the copy, whose life is its own. No slot
    /// that was there before changes.
    pub fn copy(&self, store: &mut Store) -> (r: Result<Plist, PlistError>)
        requires
            old(store).wf(),
        ensures
            final(store).wf(),
            match r {
                Ok(h) => {
                    let dst = h.node()->0;
                    &&& self.target(old(store)) matches Some(src)
                    &&& h.is_owning()
                    &&& h.node() is Some
                    &&& dst == old(store).size()
                    &&& h.target(final(store)) == Some(dst)
                    &&& final(store).parent(dst) is None
                    &&& final(store).extends(*old(store))
                    &&& Store::copy_of(
                        *old(store),
                        src,
                        *final(store),
                        dst,
                        dst as int,
                        final(store).size() as int,
                    )
                    &&& forall|n: usize|
                        n < old(store).size() ==> final(store).live(n) == old(store).live(n)
                },
                Err(e) => {
                    &&& e == PlistError::Dealloc
                    &&& self.target(old(store)) is None
                    &&& final(store).unchanged(*old(store))
                },
            },
    {
        let src = match self.as_ptr(store) {
            Ok(src) => src,
            Err(e) => {
                return Err(e);
            },
        };
        proof {
            store.lemma_live_occupied(src);
        }
        let dst = store.copy_node(src);
        proof {
            store.lemma_root_live(dst);
            assert forall|n: usize| n < old(store).size() implies store.live(n) == old(store).live(n) by {
                Store::lemma_live_extends(*old(store), *store, n);
            }
        }
        Ok(Plist::new(dst))
    }

    /// Ends this handle. An owning handle whose node is still the root of a
    /// live tree frees that tree: the root's slot is emptied, the root and
    /// every node below it stop being live, and no other node does. Any other
    /// handle frees nothing. What the dead nodes below the root hold is given
    /// back by `Store::reclaim`.
    pub fn release(self, store: &mut Store)
        requires
            old(store).wf(),
        ensures
            self.released(old(store), final(store)),
    {
        if self.p.is_some() {
            if let Ok(id) = self.as_ptr(store) {
                proof {
                    store.lemma_live_occupied(id);
                }
                if store.is_root(id) {
                    store.free_root(id);
                }
            }
        }
    }

    /// What holds of the store after this handle was released.
    pub open spec fn released(&self, before: &Store, after: &Store) -> bool {
        &&& after.wf()
        &&& self.frees(before) ==> {
            &&& !after.occupied(self.node()->0)
            &&& after.size() == before.size()
            &&& after.same_but(*before, self.node()->0)
            &&& forall|n: usize|
                after.live(n) == (before.live(n) && !before.reaches(n, self.node()->0))
        }
        &&& !self.frees(before) ==> after.unchanged(*before)
    }

    /// Whether releasing this handle frees a tree of `store`.
    pub open spec fn frees(&self, store: &Store) -> bool {
        &&& self.is_owning()
        &&& self.target(store) matches Some(id)
        &&& store.parent(id) is None
    }

    /// Checks that the node of `item` can go below the live container in slot
    /// `c` and makes room for it. Nothing but ranks changes, and on an error
    /// nothing at all.
    pub(crate) fn prepare(store: &mut Store, c: usize, item: &Plist) -> (r: Result<
        usize,
        PlistError,
    >)
        requires
            old(store).wf(),
            old(store).live(c),
        ensures
            final(store).wf(),
            match r {
                Ok(n) => {
                    &&& item.transfer_error(old(store), c) is None
                    &&& item.target(old(store)) == Some(n)
                    &&& item.node() == Some(n)
                    &&& n != c
                    &&& final(store).same_trees(*old(store))
                    &&& final(store).ranks_kept(*old(store), c)
                    &&& final(store).ranked_below(c, n)
                    &&& final(store).occupied(n)
                    &&& final(store).parent(n) is None
                    &&& forall|i: usize| final(store).live(i) == old(store).live(i)
                },
                Err(e) => item.transfer_error(old(store), c) == Some(e) && final(store).unchanged(
                    *old(store),
                ),
            },
    {
        let n = match item.as_ptr(store) {
            Ok(n) => n,
            Err(e) => {
                return Err(e);
            },
        };
        proof {
            store.lemma_live_occupied(n);
            store.lemma_live_occupied(c);
            store.lemma_reaches_self(c);
        }
        if !store.is_root(n) || store.on_path(c, n) {
            return Err(PlistError::InvalidArg);
        }
        if !store.make_room(c, n) {
            return Err(PlistError::NoMemory);
        }
        proof {
            store.lemma_trees_kept(*old(store));
        }
        Ok(n)
    }

    /// Moves the node of `item` below the container in slot `c`, at position
    /// `index` and under `key`, and turns `item` into a view of it.
    pub(crate) fn transfer(
        store: &mut Store,
        c: usize,
        item: &mut Plist,
        index: usize,
        key: String,
    ) -> (r: Result<(), PlistError>)
        requires
            old(store).wf(),
            old(store).live(c),
            old(store).content(c).is_container(),
            index <= old(store).content(c).children().len(),
            old(store).content(c) matches Content::Dictionary(keys, _) ==> crate::store::key_index(
                keys,
                key@,
            ) is None,
        ensures
            final(store).wf(),
            r == match old(item).transfer_error(old(store), c) {
                Some(e) => Err::<(), PlistError>(e),
                None => Ok::<(), PlistError>(()),
            },
            r is Err ==> final(store).unchanged(*old(store)) && *final(item) == *old(item),
            r is Ok ==> {
                let n = old(item).node()->0;
                &&& old(item).target(old(store)) == Some(n)
                &&& n != c
                &&& final(item).is_view()
                &&& final(item).node() == Some(n)
                &&& final(store).size() == old(store).size()
                &&& final(store).content(c) == old(store).content(c).with_child(
                    index as int,
                    key@,
                    n,
                )
                &&& final(store).parent(c) == old(store).parent(c)
                &&& final(store).content(n) == old(store).content(n)
                &&& final(store).parent(n) == Some(c)
                &&& final(store).reaches(n, c)
                &&& final(store).ranks_kept(*old(store), c)
                &&& final(store).same_but2(*old(store), c, n)
                &&& forall|i: usize| final(store).live(i) == old(store).live(i)
            },
    {
        let n = match Self::prepare(store, c, item) {
            Ok(n) => n,
            Err(e) => {
                return Err(e);
            },
        };
        let ghost mid = *store;
        proof {
            store.lemma_trees_kept(*old(store));
            old(store).lemma_live_occupied(c);
        }
        store.adopt(c, n, index, key);
        item.replace_weak();
        proof {
            store.lemma_same_but3_after(mid, *old(store), c, n, n);
            store.lemma_reaches_parent(n, c);
        }
        Ok(())
    }

    /// Puts the node of `item` in the place of the child at position `index`
    /// of the container in slot `c`, frees that child with everything below
    /// it, and turns `item` into a view of its node. Returns the slot of the
    /// child that was freed.
    pub(crate) fn transfer_over(store: &mut Store, c: usize, item: &mut Plist, index: usize) -> (r:
        Result<usize, PlistError>)
        requires
            old(store).wf(),
            old(store).live(c),
            old(store).content(c).is_container(),
            index < old(store).content(c).children().len(),
        ensures
            final(store).wf(),
            (r is Ok) == (old(item).transfer_error(old(store), c) is None),
            r matches Err(e) ==> old(item).transfer_error(old(store), c) == Some(e) && final(store).unchanged(*old(store)) && *final(item) == *old(item),
            r matches Ok(k) ==> {
                let n = old(item).node()->0;
                &&& old(item).target(old(store)) == Some(n)
                &&& k == old(store).content(c).children()[index as int]
                &&& n != c
                &&& n != k
                &&& final(item).is_view()
                &&& final(item).node() == Some(n)
                &&& final(store).size() == old(store).size()
                &&& final(store).content(c) == old(store).content(c).with_child_replaced(
                    index as int,
                    n,
                )
                &&& final(store).parent(c) == old(store).parent(c)
                &&& final(store).content(n) == old(store).content(n)
                &&& final(store).parent(n) == Some(c)
                &&& final(store).reaches(n, c)
                &&& final(store).ranks_kept(*old(store), c)
                &&& final(store).same_but3(*old(store), c, n, k)
                &&& forall|i: usize|
                    final(store).live(i) == (old(store).live(i) && !old(store).reaches(i, k))
            },
    {
        let n = match Self::prepare(store, c, item) {
            Ok(n) => n,
            Err(e) => {
                return Err(e);
            },
        };
        let ghost mid = *store;
        proof {
            store.lemma_trees_kept(*old(store));
            old(store).lemma_live_occupied(c);
        }
        let k = store.swap_child(c, n, index);
        item.replace_weak();
        proof {
            store.lemma_same_but3_after(mid, *old(store), c, n, k);
            if old(store).reaches(n, k) {
                old(store).lemma_reaches_parent(n, k);
            }
            store.lemma_reaches_parent(n, c);
            assert forall|i: usize|
                store.live(i) == (old(store).live(i) && !old(store).reaches(i, k)) by {
                Store::lemma_reaches_same(mid, *old(store), i, k);
            }
        }
        Ok(k)
    }
}

} // verus!
