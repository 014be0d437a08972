//! The node store: every node of every tree lives in one slot of an arena,
//! under an index that is never given out twice.

use vstd::prelude::*;
use crate::record::held;
use crate::record::is_kid;
use crate::record::kid_keys;
use crate::record::kid_slots;
use crate::record::lemma_kids_same;
use crate::record::lemma_no_early_kids;
use crate::record::lemma_kids_skip;
use crate::record::valid_at;
use crate::record::Record;
use crate::PlistType;

verus! {

/// What a node holds. A real number is kept as its IEEE 754 bit pattern; an
/// array as the indices of its elements; a dictionary as its keys beside the
/// indices of their values.
pub enum Value {
    Boolean(bool),
    UInt(u64),
    Real(u64),
    String(String),
    Array(Vec<usize>),
    Dictionary(Vec<String>, Vec<usize>),
    Date(i32, i32),
    Data(Vec<i8>),
    Key(String),
    Uid(u64),
    Null,
}

/// The mathematical content of a node.
pub ghost enum Content {
    Boolean(bool),
    UInt(u64),
    Real(u64),
    String(Seq<char>),
    Array(Seq<usize>),
    Dictionary(Seq<Seq<char>>, Seq<usize>),
    Date(i32, i32),
    Data(Seq<i8>),
    Key(Seq<char>),
    Uid(u64),
    Null,
}

/// The keys of a dictionary as sequences of characters.
pub open spec fn key_views(keys: Seq<String>) -> Seq<Seq<char>> {
    Seq::new(keys.len(), |i: int| keys[i]@)
}

impl View for Value {
    type V = Content;

    open spec fn view(&self) -> Content {
        match self {
            Value::Boolean(b) => Content::Boolean(*b),
            Value::UInt(u) => Content::UInt(*u),
            Value::Real(r) => Content::Real(*r),
            Value::String(s) => Content::String(s@),
            Value::Array(items) => Content::Array(items@),
            Value::Dictionary(keys, nodes) => Content::Dictionary(key_views(keys@), nodes@),
            Value::Date(sec, usec) => Content::Date(*sec, *usec),
            Value::Data(d) => Content::Data(d@),
            Value::Key(s) => Content::Key(s@),
            Value::Uid(u) => Content::Uid(*u),
            Value::Null => Content::Null,
        }
    }
}

impl Content {
    /// The type tag of a node with this content.
    pub open spec fn tag(self) -> PlistType {
        match self {
            Content::Boolean(_) => PlistType::Boolean,
            Content::UInt(_) => PlistType::UInt,
            Content::Real(_) => PlistType::Real,
            Content::String(_) => PlistType::String,
            Content::Array(_) => PlistType::Array,
            Content::Dictionary(_, _) => PlistType::Dictionary,
            Content::Date(_, _) => PlistType::Date,
            Content::Data(_) => PlistType::Data,
            Content::Key(_) => PlistType::Key,
            Content::Uid(_) => PlistType::UID,
            Content::Null => PlistType::Null,
        }
    }

    /// Whether this is the content of an array or a dictionary.
    pub open spec fn is_container(self) -> bool {
        self is Array || self is Dictionary
    }

    /// The nodes directly below a node with this content, in order.
    pub open spec fn children(self) -> Seq<usize> {
        match self {
            Content::Array(items) => items,
            Content::Dictionary(_, nodes) => nodes,
            _ => Seq::empty(),
        }
    }

    /// This content with the node `r` put at position `index`, under `key`
    /// where this is a dictionary.
    pub open spec fn with_child(self, index: int, key: Seq<char>, r: usize) -> Content {
        match self {
            Content::Array(items) => Content::Array(items.insert(index, r)),
            Content::Dictionary(keys, nodes) => Content::Dictionary(
                keys.insert(index, key),
                nodes.insert(index, r),
            ),
            other => other,
        }
    }

    /// This content with the node `r` in place of the child at position
    /// `index`.
    pub open spec fn with_child_replaced(self, index: int, r: usize) -> Content {
        match self {
            Content::Array(items) => Content::Array(items.update(index, r)),
            Content::Dictionary(keys, nodes) => Content::Dictionary(keys, nodes.update(index, r)),
            other => other,
        }
    }

    /// This content without the child at position `index`.
    pub open spec fn without_child(self, index: int) -> Content {
        match self {
            Content::Array(items) => Content::Array(items.remove(index)),
            Content::Dictionary(keys, nodes) => Content::Dictionary(
                keys.remove(index),
                nodes.remove(index),
            ),
            other => other,
        }
    }

    /// Whether a container with this content is free of children.
    pub open spec fn childless(self) -> bool {
        self.children().len() == 0 && (self matches Content::Dictionary(keys, _) ==> keys.len()
            == 0)
    }
}

/// Whether no key occurs twice.
pub open spec fn distinct_keys(keys: Seq<Seq<char>>) -> bool {
    forall|i: int, j: int|
        0 <= i < keys.len() && 0 <= j < keys.len() && i != j ==> #[trigger] keys[i]
            != #[trigger] keys[j]
}

/// Where `key` stands among `keys`, if it does.
pub open spec fn key_index(keys: Seq<Seq<char>>, key: Seq<char>) -> Option<int> {
    if exists|i: int| 0 <= i < keys.len() && #[trigger] keys[i] == key {
        Some(choose|i: int| 0 <= i < keys.len() && #[trigger] keys[i] == key)
    } else {
        None
    }
}

/// One slot's node: its value, the container it stands in, and a rank that
/// is smaller than its container's.
pub struct Node {
    value: Value,
    parent: Option<usize>,
    height: usize,
}

/// The arena of nodes. A slot is filled once and emptied at most once; an
/// emptied slot is never filled again, so a stale index never reaches a
/// stranger's node.
pub struct Store {
    slots: Vec<Option<Node>>,
}

/// The number of slots that hold a node.
pub closed spec fn filled(slots: Seq<Option<Node>>) -> nat
    decreases slots.len(),
{
    if slots.len() == 0 {
        0
    } else {
        filled(slots.drop_last()) + if slots.last() is Some {
            1nat
        } else {
            0nat
        }
    }
}

impl Store {
    /// The number of slots handed out so far.
    pub closed spec fn size(&self) -> nat {
        self.slots@.len()
    }

    /// Whether slot `id` holds a node.
    pub closed spec fn occupied(&self, id: usize) -> bool {
        id < self.slots@.len() && self.slots@[id as int] is Some
    }

    /// The content of the node in slot `id`.
    pub closed spec fn content(&self, id: usize) -> Content {
        self.slots@[id as int]->0.value@
    }

    /// The container in which the node in slot `id` stands, if any.
    pub closed spec fn parent(&self, id: usize) -> Option<usize> {
        self.slots@[id as int]->0.parent
    }

    /// The rank of the node in slot `id`.
    pub closed spec fn height(&self, id: usize) -> usize {
        self.slots@[id as int]->0.height
    }

    /// Whether the node in slot `id` stands below an occupied slot of higher
    /// rank: the one step by which a walk toward the root proceeds.
    pub open spec fn steps_up(&self, id: usize) -> bool {
        &&& self.occupied(id)
        &&& self.parent(id) matches Some(p)
        &&& self.occupied(p)
        &&& self.height(p) > self.height(id)
    }

    /// Whether the node in slot `id` belongs to a tree that has not been
    /// freed: its slot is occupied, and so is every slot on the way up to a
    /// node without a container.
    pub open spec fn live(&self, id: usize) -> bool
        decreases usize::MAX - self.height(id),
    {
        if !self.occupied(id) {
            false
        } else if self.parent(id) is None {
            true
        } else if self.steps_up(id) {
            self.live(self.parent(id)->0)
        } else {
            false
        }
    }

    /// Whether the walk from `id` toward its root passes `target`, `id`
    /// itself included.
    pub open spec fn reaches(&self, id: usize, target: usize) -> bool
        decreases usize::MAX - self.height(id),
    {
        if id == target {
            true
        } else if self.steps_up(id) {
            self.reaches(self.parent(id)->0, target)
        } else {
            false
        }
    }

    /// Whether the children listed in slot `id` are occupied slots that name
    /// `id` as their container, none of them twice.
    pub closed spec fn kids_ok(&self, id: usize) -> bool {
        let kids = self.content(id).children();
        &&& forall|k: int|
            0 <= k < kids.len() ==> self.occupied(#[trigger] kids[k]) && self.parent(kids[k])
                == Some(id)
        &&& forall|j: int, k: int|
            0 <= j < kids.len() && 0 <= k < kids.len() && j != k ==> #[trigger] kids[j]
                != #[trigger] kids[k]
    }

    /// Whether the node in slot `id` is consistent with the rest.
    pub closed spec fn node_ok(&self, id: usize) -> bool {
        &&& self.parent(id) matches Some(p) ==> p < self.slots@.len() && (self.occupied(p)
            ==> self.height(p) > self.height(id))
        &&& self.content(id) matches Content::Dictionary(keys, nodes) ==> keys.len()
            == nodes.len() && distinct_keys(keys)
        &&& self.kids_ok(id)
    }

    /// The invariant of the store: every occupied slot is consistent.
    pub closed spec fn wf(&self) -> bool {
        forall|id: usize| #[trigger] self.occupied(id) ==> self.node_ok(id)
    }

    /// An empty store.
    pub fn new() -> (s: Store)
        ensures
            s.wf(),
            s.size() == 0,
            forall|id: usize| !s.occupied(id),
    {
        Store { slots: Vec::new() }
    }

    /// Puts a childless value into a fresh slot, as the root of a new tree.
    pub(crate) fn add_root(&mut self, value: Value, height: usize) -> (id: usize)
        requires
            old(self).wf(),
            value@.childless(),
        ensures
            final(self).wf(),
            final(self).extends(*old(self)),
            final(self).height(id) == height,
            final(self).top_ranked(id) == (height == usize::MAX),
            final(self).occupied(id),
            id == old(self).size(),
            final(self).size() == old(self).size() + 1,
            !old(self).occupied(id),
            final(self).live(id),
            final(self).content(id) == value@,
            final(self).parent(id) is None,
            final(self).same_but(*old(self), id),
            forall|n: usize| n != id ==> final(self).live(n) == old(self).live(n),
    {
        let id = self.slots.len();
        self.slots.push(Some(Node { value, parent: None, height }));
        proof {
            assert forall|n: usize| #[trigger] self.occupied(n) implies self.node_ok(n) by {
                if n != id {
                    assert(old(self).occupied(n));
                    assert(old(self).node_ok(n));
                }
            }
            assert forall|n: usize| n != id implies self.live(n) == old(self).live(n) by {
                Self::lemma_live_same(*old(self), *self, n);
            }
            assert forall|n: usize| n < old(self).slots@.len() implies (#[trigger] self.occupied(n)
                == old(self).occupied(n)) && (self.occupied(n) ==> self.content(n) == old(self).content(n) && self.parent(n) == old(self).parent(n) && self.height(n) == old(self).height(n)) by {}
        }
        id
    }

    /// Whether the node in slot `id` belongs to a tree that has not been freed.
    pub fn is_live(&self, id: usize) -> (b: bool)
        requires
            self.wf(),
        ensures
            b == self.live(id),
    {
        if id >= self.slots.len() {
            return false;
        }
        if self.slots[id].is_none() {
            return false;
        }
        let mut cur: usize = id;
        loop
            invariant
                self.wf(),
                self.occupied(cur),
                self.live(cur) == self.live(id),
            decreases usize::MAX - self.height(cur),
        {
            proof {
                assert(self.node_ok(cur));
            }
            let up = match &self.slots[cur] {
                Some(node) => node.parent,
                None => None,
            };
            match up {
                None => {
                    return true;
                },
                Some(p) => {
                    if self.slots[p].is_none() {
                        return false;
                    }
                    cur = p;
                },
            }
        }
    }

    /// The type tag of the node in slot `id`.
    pub(crate) fn kind(&self, id: usize) -> (t: PlistType)
        requires
            self.occupied(id),
        ensures
            t == self.content(id).tag(),
    {
        match self.value_ref(id) {
            Value::Boolean(_) => PlistType::Boolean,
            Value::UInt(_) => PlistType::UInt,
            Value::Real(_) => PlistType::Real,
            Value::String(_) => PlistType::String,
            Value::Array(_) => PlistType::Array,
            Value::Dictionary(_, _) => PlistType::Dictionary,
            Value::Date(_, _) => PlistType::Date,
            Value::Data(_) => PlistType::Data,
            Value::Key(_) => PlistType::Key,
            Value::Uid(_) => PlistType::UID,
            Value::Null => PlistType::Null,
        }
    }

    /// The number of children of the node in slot `id`.
    pub(crate) fn child_count(&self, id: usize) -> (n: usize)
        requires
            self.occupied(id),
        ensures
            n == self.content(id).children().len(),
    {
        match self.value_ref(id) {
            Value::Array(items) => items.len(),
            Value::Dictionary(_, nodes) => nodes.len(),
            _ => 0,
        }
    }

    /// The slot of the child at position `index` of the node in slot `id`.
    pub(crate) fn child_at(&self, id: usize, index: usize) -> (k: usize)
        requires
            self.occupied(id),
            index < self.content(id).children().len(),
        ensures
            k == self.content(id).children()[index as int],
    {
        match self.value_ref(id) {
            Value::Array(items) => items[index],
            Value::Dictionary(_, nodes) => nodes[index],
            _ => 0,
        }
    }

    /// Where `key` stands among the keys of the dictionary in slot `id`.
    pub(crate) fn find_key(&self, id: usize, key: &String) -> (r: Option<usize>)
        requires
            self.wf(),
            self.occupied(id),
            self.content(id) is Dictionary,
        ensures
            match r {
                Some(i) => key_index(self.content(id)->Dictionary_0, key@) == Some(i as int) && i
                    < self.content(id).children().len() && self.content(id)->Dictionary_0[i as int]
                    == key@,
                None => key_index(self.content(id)->Dictionary_0, key@) is None,
            },
    {
        proof {
            assert(self.node_ok(id));
        }
        match self.value_ref(id) {
            Value::Dictionary(keys, _) => {
                let ghost views = key_views(keys@);
                proof {
                    assert(self.content(id)->Dictionary_0 == views);
                }
                let mut i: usize = 0;
                while i < keys.len()
                    invariant
                        i <= keys.len(),
                        views == key_views(keys@),
                        views == self.content(id)->Dictionary_0,
                        views.len() == self.content(id).children().len(),
                        views.len() == keys.len(),
                        distinct_keys(views),
                        forall|j: int| 0 <= j < i ==> #[trigger] views[j] != key@,
                    decreases keys.len() - i,
                {
                    if keys[i] == *key {
                        proof {
                            assert(views[i as int] == key@);
                            let j = choose|j: int| 0 <= j < views.len() && #[trigger] views[j] == key@;
                            assert(j == i);
                        }
                        return Some(i);
                    }
                    proof {
                        assert(views[i as int] == keys@[i as int]@);
                    }
                    i = i + 1;
                }
                None
            },
            _ => None,
        }
    }

    /// The key at position `index` of the dictionary in slot `id`.
    pub(crate) fn key_at(&self, id: usize, index: usize) -> (key: String)
        requires
            self.wf(),
            self.occupied(id),
            self.content(id) is Dictionary,
            index < self.content(id).children().len(),
        ensures
            key@ == self.content(id)->Dictionary_0[index as int],
    {
        proof {
            assert(self.node_ok(id));
        }
        match self.value_ref(id) {
            Value::Dictionary(keys, _) => {
                let key = keys[index].clone();
                proof {
                    assert(key_views(keys@)[index as int] == key@);
                }
                key
            },
            _ => String::new(),
        }
    }

    /// Whether the node in slot `id` stands in no container.
    pub(crate) fn is_root(&self, id: usize) -> (b: bool)
        requires
            self.occupied(id),
        ensures
            b == (self.parent(id) is None),
    {
        match &self.slots[id] {
            Some(node) => node.parent.is_none(),
            None => true,
        }
    }

    /// The value in slot `id`.
    pub(crate) fn value_ref(&self, id: usize) -> (v: &Value)
        requires
            self.occupied(id),
        ensures
            v@ == self.content(id),
    {
        match &self.slots[id] {
            Some(node) => &node.value,
            None => vstd::pervasive::unreached(),
        }
    }

    /// Replaces the value of a node that has no children by a value that has
    /// none either; the node keeps its slot and its place in its tree.
    pub(crate) fn put(&mut self, id: usize, value: Value)
        requires
            old(self).wf(),
            old(self).occupied(id),
            !old(self).content(id).is_container(),
            !value@.is_container(),
        ensures
            final(self).wf(),
            final(self).size() == old(self).size(),
            final(self).occupied(id),
            final(self).content(id) == value@,
            final(self).parent(id) == old(self).parent(id),
            final(self).same_but(*old(self), id),
            forall|n: usize| final(self).live(n) == old(self).live(n),
    {
        match &mut self.slots[id] {
            Some(node) => {
                node.value = value;
            },
            None => {},
        }
        proof {
            assert forall|n: usize| #[trigger] self.occupied(n) implies self.node_ok(n) by {
                assert(old(self).occupied(n));
                assert(old(self).node_ok(n));
            }
            assert forall|n: usize| self.live(n) == old(self).live(n) by {
                Self::lemma_live_same(*old(self), *self, n);
            }
        }
    }

    /// Whether every slot but `id` holds in `self` what it holds in `other`,
    /// ranks aside.
    pub open spec fn same_but(&self, other: Store, id: usize) -> bool {
        self.same_but2(other, id, id)
    }

    /// Whether every slot but `x` and `y` holds in `self` what it holds in
    /// `other`, ranks aside.
    pub open spec fn same_but2(&self, other: Store, x: usize, y: usize) -> bool {
        self.same_but3(other, x, y, y)
    }

    /// Whether every slot but `x`, `y` and `z` holds in `self` what it holds
    /// in `other`, ranks aside.
    pub open spec fn same_but3(&self, other: Store, x: usize, y: usize, z: usize) -> bool {
        forall|n: usize|
            #![trigger self.occupied(n)]
            #![trigger self.content(n)]
            #![trigger self.parent(n)]
            n != x && n != y && n != z ==> (self.occupied(n) == other.occupied(n)) && (
            self.occupied(n) ==> self.content(n) == other.content(n) && self.parent(n)
                == other.parent(n))
    }

    /// Whether `self` is the store `other`, ranks included.
    pub open spec fn unchanged(&self, other: Store) -> bool {
        *self == other
    }

    /// Whether `self` and `other` agree on every rank and on the number of
    /// slots.
    pub open spec fn same_ranks(&self, other: Store) -> bool {
        &&& self.size() == other.size()
        &&& forall|n: usize|
            self.occupied(n) && other.occupied(n) ==> #[trigger] self.height(n) == other.height(n)
    }

    /// Whether every node that holds its slot in both stores, and that no
    /// walk from `c` passes in `other`, has in `self` the rank it has in
    /// `other`.
    pub open spec fn ranks_kept(&self, other: Store, c: usize) -> bool {
        forall|n: usize|
            self.occupied(n) && other.occupied(n) && !other.reaches(c, n) ==> #[trigger] self.height(
                n,
            ) == other.height(n)
    }

    /// Whether `self` and `other` hold the same trees: the same occupied
    /// slots with the same contents and containers. Ranks may differ.
    pub closed spec fn same_trees(&self, other: Store) -> bool {
        &&& self.slots@.len() == other.slots@.len()
        &&& forall|n: usize|
            (#[trigger] self.occupied(n) == other.occupied(n)) && (self.occupied(n)
                ==> self.content(n) == other.content(n) && self.parent(n) == other.parent(n))
    }

    /// Whether the ranks from `id` upward can be raised so that `id` gets a
    /// rank of at least `h`.
    pub open spec fn fits(&self, id: usize, h: usize) -> bool
        decreases usize::MAX - self.height(id),
    {
        if !self.occupied(id) || self.height(id) >= h {
            true
        } else if self.steps_up(id) {
            h < usize::MAX && self.fits(self.parent(id)->0, (h + 1) as usize)
        } else {
            true
        }
    }

    /// Whether the container in slot `c` has room above it to take the root
    /// in slot `r` below it.
    pub open spec fn room_for(&self, c: usize, r: usize) -> bool {
        self.height(r) < usize::MAX && self.fits(c, (self.height(r) + 1) as usize)
    }

    /// Whether the slots `c` and `r` stand so that `r` can go below `c`.
    pub open spec fn ranked_below(&self, c: usize, r: usize) -> bool {
        self.height(c) > self.height(r)
    }

    /// Whether the walk from `from` toward its root passes `target`.
    pub(crate) fn on_path(&self, from: usize, target: usize) -> (b: bool)
        requires
            self.wf(),
            self.occupied(from),
        ensures
            b == self.reaches(from, target),
    {
        let mut cur: usize = from;
        loop
            invariant
                self.wf(),
                self.occupied(cur),
                self.reaches(cur, target) == self.reaches(from, target),
            decreases usize::MAX - self.height(cur),
        {
            proof {
                assert(self.node_ok(cur));
            }
            if cur == target {
                return true;
            }
            let up = match &self.slots[cur] {
                Some(node) => node.parent,
                None => None,
            };
            match up {
                None => {
                    return false;
                },
                Some(p) => {
                    if self.slots[p].is_none() {
                        return false;
                    }
                    cur = p;
                },
            }
        }
    }

    /// Raises ranks from `id` upward until `id` has a rank of at least `h`,
    /// or changes nothing where that cannot be done.
    fn raise(&mut self, id: usize, h: usize) -> (ok: bool)
        requires
            old(self).wf(),
            old(self).occupied(id),
        ensures
            ok == old(self).fits(id, h),
            !ok ==> final(self).unchanged(*old(self)),
            final(self).wf(),
            final(self).same_trees(*old(self)),
            ok ==> final(self).height(id) >= h,
            forall|n: usize|
                old(self).occupied(n) && !old(self).reaches(id, n) ==> #[trigger] final(self).height(
                    n,
                ) == old(self).height(n),
            forall|n: usize|
                old(self).occupied(n) ==> #[trigger] final(self).height(n) >= old(self).height(n),
        decreases usize::MAX - old(self).height(id),
    {
        proof {
            assert(self.node_ok(id));
        }
        let (cur, up) = match &self.slots[id] {
            Some(node) => (node.height, node.parent),
            None => (0usize, None),
        };
        if cur >= h {
            return true;
        }
        match up {
            None => {},
            Some(p) => {
                if self.slots[p].is_some() {
                    if h == usize::MAX {
                        return false;
                    }
                    if !self.raise(p, h + 1) {
                        return false;
                    }
                }
            },
        }
        let ghost mid = *self;
        proof {
            assert(mid.occupied(id) == old(self).occupied(id));
            assert(mid.node_ok(id));
        }
        match &mut self.slots[id] {
            Some(node) => {
                if node.height < h {
                    node.height = h;
                }
            },
            None => {},
        }
        proof {
            assert forall|n: usize| #[trigger] self.occupied(n) implies self.node_ok(n) by {
                assert(mid.occupied(n));
                assert(mid.node_ok(n));
            }
            assert forall|n: usize|
                (#[trigger] self.occupied(n) == old(self).occupied(n)) && (self.occupied(n)
                    ==> self.content(n) == old(self).content(n) && self.parent(n) == old(self).parent(n)) by {
                assert(mid.occupied(n) == old(self).occupied(n));
            }
            assert forall|n: usize| old(self).occupied(n) implies #[trigger] self.height(n)
                >= old(self).height(n) by {
                assert(mid.occupied(n) == old(self).occupied(n));
                assert(mid.height(n) >= old(self).height(n));
            }
            assert forall|n: usize|
                old(self).occupied(n) && !old(self).reaches(id, n) implies #[trigger] self.height(
                n,
            ) == old(self).height(n) by {
                assert(mid.occupied(n) == old(self).occupied(n));
                assert(n != id);
                assert(mid.height(n) == old(self).height(n));
            }
        }
        true
    }

    /// Makes the ranks above the container in slot `c` high enough for the
    /// root in slot `r` to go below it, or changes nothing where they cannot
    /// be raised.
    pub(crate) fn make_room(&mut self, c: usize, r: usize) -> (ok: bool)
        requires
            old(self).wf(),
            old(self).occupied(c),
            old(self).occupied(r),
            !old(self).reaches(c, r),
        ensures
            ok == old(self).room_for(c, r),
            !ok ==> final(self).unchanged(*old(self)),
            ok ==> final(self).ranked_below(c, r),
            final(self).wf(),
            final(self).same_trees(*old(self)),
            forall|n: usize| final(self).live(n) == old(self).live(n),
            forall|n: usize|
                old(self).occupied(n) && !old(self).reaches(c, n) ==> #[trigger] final(self).height(
                    n,
                ) == old(self).height(n),
    {
        let h = match &self.slots[r] {
            Some(node) => node.height,
            None => 0usize,
        };
        if h == usize::MAX {
            proof {
                assert forall|n: usize| self.live(n) == old(self).live(n) by {}
            }
            return false;
        }
        let ok = self.raise(c, h + 1);
        proof {
            assert(self.occupied(r) == old(self).occupied(r));
            assert(self.occupied(c) == old(self).occupied(c));
            assert(self.height(r) == old(self).height(r));
            assert forall|n: usize| self.live(n) == old(self).live(n) by {
                assert(self.occupied(n) == old(self).occupied(n));
                Self::lemma_live_same(*old(self), *self, n);
            }
        }
        ok
    }

    /// Puts the root in slot `r` below the container in slot `c`, at
    /// position `index` among its children and, in a dictionary, under `key`.
    pub(crate) fn adopt(&mut self, c: usize, r: usize, index: usize, key: String)
        requires
            old(self).wf(),
            old(self).live(c),
            old(self).content(c).is_container(),
            old(self).occupied(r),
            old(self).parent(r) is None,
            old(self).ranked_below(c, r),
            index <= old(self).content(c).children().len(),
            old(self).content(c) matches Content::Dictionary(keys, _) ==> key_index(keys, key@)
                is None,
        ensures
            final(self).wf(),
            final(self).size() == old(self).size(),
            final(self).occupied(c),
            final(self).occupied(r),
            final(self).content(c) == old(self).content(c).with_child(index as int, key@, r),
            final(self).parent(c) == old(self).parent(c),
            final(self).content(r) == old(self).content(r),
            final(self).parent(r) == Some(c),
            final(self).same_but2(*old(self), c, r),
            final(self).same_ranks(*old(self)),
            forall|n: usize| final(self).live(n) == old(self).live(n),
    {
        proof {
            old(self).lemma_live_occupied(c);
            assert(self.node_ok(c));
            assert(self.node_ok(r));
        }
        match &mut self.slots[r] {
            Some(node) => {
                node.parent = Some(c);
            },
            None => {},
        }
        let ghost mid = *self;
        match &mut self.slots[c] {
            Some(node) => {
                match &mut node.value {
                    Value::Array(items) => {
                        items.insert(index, r);
                    },
                    Value::Dictionary(keys, nodes) => {
                        let ghost before = keys@;
                        keys.insert(index, key);
                        nodes.insert(index, r);
                        proof {
                            assert(key_views(keys@) =~= key_views(before).insert(
                                index as int,
                                key@,
                            ));
                        }
                    },
                    _ => {},
                }
            },
            None => {},
        }
        proof {
            let kids = old(self).content(c).children();
            let kids2 = self.content(c).children();
            assert(kids2 == kids.insert(index as int, r));
            assert forall|k: int| 0 <= k < kids.len() implies #[trigger] kids[k] != r by {
                assert(old(self).occupied(kids[k]));
            }
            assert forall|n: usize| #[trigger] self.occupied(n) implies self.node_ok(n) by {
                assert(old(self).occupied(n));
                assert(old(self).node_ok(n));
                if n == c {
                    assert forall|k: int| 0 <= k < kids2.len() implies self.occupied(
                        #[trigger] kids2[k],
                    ) && self.parent(kids2[k]) == Some(c) by {
                        if k < index {
                            assert(kids2[k] == kids[k]);
                        } else if k > index {
                            assert(kids2[k] == kids[k - 1]);
                        }
                    }
                    assert forall|j: int, k: int|
                        0 <= j < kids2.len() && 0 <= k < kids2.len() && j != k implies #[trigger] kids2[j]
                        != #[trigger] kids2[k] by {
                        let jj = if j < index { j } else { j - 1 };
                        let kk = if k < index { k } else { k - 1 };
                        if j != index && k != index {
                            assert(kids2[j] == kids[jj]);
                            assert(kids2[k] == kids[kk]);
                        } else if j == index {
                            assert(kids2[k] == kids[kk]);
                        } else {
                            assert(kids2[j] == kids[jj]);
                        }
                    }
                    if let Content::Dictionary(keys, nodes) = old(self).content(c) {
                        let keys2 = keys.insert(index as int, key@);
                        assert forall|i: int, j: int|
                            0 <= i < keys2.len() && 0 <= j < keys2.len() && i != j implies #[trigger] keys2[i]
                            != #[trigger] keys2[j] by {
                            let ii = if i < index { i } else { i - 1 };
                            let jj = if j < index { j } else { j - 1 };
                            if i != index && j != index {
                                assert(keys2[i] == keys[ii]);
                                assert(keys2[j] == keys[jj]);
                            } else if i == index {
                                assert(keys2[j] == keys[jj]);
                            } else {
                                assert(keys2[i] == keys[ii]);
                            }
                        }
                    }
                } else if n != r {
                    let nk = old(self).content(n).children();
                    assert forall|k: int| 0 <= k < nk.len() implies self.occupied(
                        #[trigger] nk[k],
                    ) && self.parent(nk[k]) == Some(n) by {
                        assert(old(self).occupied(nk[k]));
                    }
                }
            }
            if old(self).reaches(c, r) {
                old(self).lemma_reaches_higher(c, r);
            }
            assert forall|n: usize| self.live(n) == old(self).live(n) by {
                Self::lemma_live_linked(*old(self), *self, c, r, n);
            }
        }
    }

    /// Takes the child at position `index` out of the container in slot `c`
    /// and frees it with everything below it.
    pub(crate) fn drop_child(&mut self, c: usize, index: usize) -> (k: usize)
        requires
            old(self).wf(),
            old(self).occupied(c),
            old(self).content(c).is_container(),
            index < old(self).content(c).children().len(),
        ensures
            k == old(self).content(c).children()[index as int],
            k != c,
            old(self).occupied(k),
            old(self).parent(k) == Some(c),
            final(self).wf(),
            final(self).size() == old(self).size(),
            final(self).occupied(c),
            !final(self).occupied(k),
            final(self).content(c) == old(self).content(c).without_child(index as int),
            final(self).parent(c) == old(self).parent(c),
            final(self).same_but2(*old(self), c, k),
            final(self).same_ranks(*old(self)),
            forall|n: usize| final(self).live(n) == (old(self).live(n) && !old(self).reaches(n, k)),
    {
        proof {
            assert(self.node_ok(c));
        }
        let ghost kids = self.content(c).children();
        let mut k: usize = 0;
        match &mut self.slots[c] {
            Some(node) => {
                match &mut node.value {
                    Value::Array(items) => {
                        k = items.remove(index);
                    },
                    Value::Dictionary(keys, nodes) => {
                        let ghost before = keys@;
                        let _ = keys.remove(index);
                        k = nodes.remove(index);
                        proof {
                            assert(key_views(keys@) =~= key_views(before).remove(index as int));
                        }
                    },
                    _ => {},
                }
            },
            None => {},
        }
        proof {
            assert(k == kids[index as int]);
            assert(old(self).occupied(k));
            assert(old(self).node_ok(k));
        }
        self.slots[k] = None;
        proof {
            let kids2 = self.content(c).children();
            assert(kids2 == kids.remove(index as int));
            assert forall|n: usize| #[trigger] self.occupied(n) implies self.node_ok(n) by {
                assert(old(self).occupied(n));
                assert(old(self).node_ok(n));
                if n == c {
                    assert forall|j: int| 0 <= j < kids2.len() implies self.occupied(
                        #[trigger] kids2[j],
                    ) && self.parent(kids2[j]) == Some(c) by {
                        let jj = if j < index { j } else { j + 1 };
                        assert(kids2[j] == kids[jj]);
                    }
                    assert forall|i: int, j: int|
                        0 <= i < kids2.len() && 0 <= j < kids2.len() && i != j implies #[trigger] kids2[i]
                        != #[trigger] kids2[j] by {
                        let ii = if i < index { i } else { i + 1 };
                        let jj = if j < index { j } else { j + 1 };
                        assert(kids2[i] == kids[ii]);
                        assert(kids2[j] == kids[jj]);
                    }
                    if let Content::Dictionary(keys, nodes) = old(self).content(c) {
                        let keys2 = keys.remove(index as int);
                        assert forall|i: int, j: int|
                            0 <= i < keys2.len() && 0 <= j < keys2.len() && i != j implies #[trigger] keys2[i]
                            != #[trigger] keys2[j] by {
                            let ii = if i < index { i } else { i + 1 };
                            let jj = if j < index { j } else { j + 1 };
                            assert(keys2[i] == keys[ii]);
                            assert(keys2[j] == keys[jj]);
                        }
                    }
                } else {
                    let nk = old(self).content(n).children();
                    assert forall|j: int| 0 <= j < nk.len() implies self.occupied(
                        #[trigger] nk[j],
                    ) && self.parent(nk[j]) == Some(n) by {
                        assert(old(self).occupied(nk[j]));
                    }
                }
            }
            assert forall|n: usize|
                self.live(n) == (old(self).live(n) && !old(self).reaches(n, k)) by {
                Self::lemma_live_cut(*old(self), *self, k, n);
            }
        }
        k
    }

    /// Frees the tree whose root stands in slot `id`.
    pub(crate) fn free_root(&mut self, id: usize)
        requires
            old(self).wf(),
            old(self).occupied(id),
            old(self).parent(id) is None,
        ensures
            final(self).wf(),
            final(self).size() == old(self).size(),
            !final(self).occupied(id),
            final(self).same_but(*old(self), id),
            final(self).same_ranks(*old(self)),
            forall|n: usize|
                final(self).live(n) == (old(self).live(n) && !old(self).reaches(n, id)),
    {
        self.slots[id] = None;
        proof {
            assert forall|n: usize| #[trigger] self.occupied(n) implies self.node_ok(n) by {
                assert(old(self).occupied(n));
                assert(old(self).node_ok(n));
                let nk = old(self).content(n).children();
                assert forall|j: int| 0 <= j < nk.len() implies self.occupied(#[trigger] nk[j])
                    && self.parent(nk[j]) == Some(n) by {
                    assert(old(self).occupied(nk[j]));
                }
            }
            assert forall|n: usize|
                self.live(n) == (old(self).live(n) && !old(self).reaches(n, id)) by {
                Self::lemma_live_cut(*old(self), *self, id, n);
            }
        }
    }

    /// Emptying slot `k` ends the life of exactly the nodes whose walk
    /// toward the root passes `k`.
    proof fn lemma_live_cut(a: Store, b: Store, k: usize, n: usize)
        requires
            a.wf(),
            b.wf(),
            a.slots@.len() == b.slots@.len(),
            forall|i: usize| i != k ==> a.occupied(i) == b.occupied(i),
            forall|i: usize| i != k && a.occupied(i) ==> a.parent(i) == b.parent(i),
            !b.occupied(k),
        ensures
            b.live(n) == (a.live(n) && !a.reaches(n, k)),
        decreases usize::MAX - a.height(n),
    {
        if n != k {
            if a.occupied(n) {
                assert(a.node_ok(n));
                assert(b.occupied(n));
                assert(b.node_ok(n));
                if let Some(p) = a.parent(n) {
                    if a.occupied(p) {
                        if p != k {
                            assert(b.occupied(p));
                            Self::lemma_live_cut(a, b, k, p);
                        }
                    } else {
                        assert(!b.occupied(p));
                    }
                }
            } else {
                assert(!b.occupied(n));
            }
        }
    }

    /// A store that holds the same trees as `other` agrees with it on every
    /// slot's content and container.
    pub proof fn lemma_trees_kept(&self, other: Store)
        requires
            self.same_trees(other),
        ensures
            self.size() == other.size(),
            forall|n: usize| self.occupied(n) == other.occupied(n),
            forall|n: usize|
                self.occupied(n) ==> self.content(n) == other.content(n) && self.parent(n)
                    == other.parent(n),
    {
    }

    /// Slots that hold the same trees as before, but for three of them, still
    /// do so when compared with a store that held the same trees earlier.
    pub proof fn lemma_same_but3_after(
        &self,
        mid: Store,
        first: Store,
        x: usize,
        y: usize,
        z: usize,
    )
        requires
            self.same_but3(mid, x, y, z),
            mid.same_trees(first),
        ensures
            self.same_but3(first, x, y, z),
    {
        assert forall|n: usize| n != x && n != y && n != z implies (#[trigger] self.occupied(n)
            == first.occupied(n)) && (self.occupied(n) ==> self.content(n) == first.content(n)
            && self.parent(n) == first.parent(n)) by {
            assert(self.occupied(n) == mid.occupied(n));
            assert(mid.occupied(n) == first.occupied(n));
        }
    }

    /// Puts the root in slot `r` in the place of the child at position
    /// `index` of the container in slot `c`, and frees that child with
    /// everything below it.
    pub(crate) fn swap_child(&mut self, c: usize, r: usize, index: usize) -> (k: usize)
        requires
            old(self).wf(),
            old(self).live(c),
            old(self).content(c).is_container(),
            old(self).occupied(r),
            old(self).parent(r) is None,
            old(self).ranked_below(c, r),
            index < old(self).content(c).children().len(),
        ensures
            k == old(self).content(c).children()[index as int],
            k != c,
            k != r,
            old(self).occupied(k),
            final(self).wf(),
            final(self).size() == old(self).size(),
            final(self).occupied(c),
            final(self).occupied(r),
            !final(self).occupied(k),
            final(self).content(c) == old(self).content(c).with_child_replaced(index as int, r),
            final(self).parent(c) == old(self).parent(c),
            final(self).content(r) == old(self).content(r),
            final(self).parent(r) == Some(c),
            final(self).same_but3(*old(self), c, r, k),
            final(self).same_ranks(*old(self)),
            forall|n: usize| final(self).live(n) == (old(self).live(n) && !old(self).reaches(n, k)),
    {
        proof {
            old(self).lemma_live_occupied(c);
            assert(self.node_ok(c));
        }
        let key = match self.value_ref(c) {
            Value::Dictionary(keys, _) => {
                let key = keys[index].clone();
                proof {
                    assert(key_views(keys@)[index as int] == key@);
                }
                key
            },
            _ => String::new(),
        };
        let k = self.drop_child(c, index);
        let ghost mid = *self;
        proof {
            assert(old(self).node_ok(k));
            if old(self).reaches(c, k) {
                old(self).lemma_reaches_higher(c, k);
            }
            assert(mid.occupied(r) == old(self).occupied(r));
            assert(mid.height(r) == old(self).height(r));
            assert(mid.height(c) == old(self).height(c));
            if let Content::Dictionary(keys, nodes) = old(self).content(c) {
                let keys2 = keys.remove(index as int);
                assert forall|i: int| 0 <= i < keys2.len() implies #[trigger] keys2[i] != key@ by {
                    let ii = if i < index { i } else { i + 1 };
                    assert(keys2[i] == keys[ii]);
                }
                assert(keys.remove(index as int).insert(index as int, key@) =~= keys);
                assert(nodes.remove(index as int).insert(index as int, r) =~= nodes.update(
                    index as int,
                    r,
                ));
            }
            if let Content::Array(items) = old(self).content(c) {
                assert(items.remove(index as int).insert(index as int, r) =~= items.update(
                    index as int,
                    r,
                ));
            }
        }
        self.adopt(c, r, index, key);
        proof {
            assert forall|n: usize| n != c && n != r && n != k implies (#[trigger] self.occupied(n)
                == old(self).occupied(n)) && (self.occupied(n) ==> self.content(n) == old(self).content(n) && self.parent(n) == old(self).parent(n)) by {
                assert(mid.occupied(n) == old(self).occupied(n));
                assert(self.occupied(n) == mid.occupied(n));
            }
            assert forall|n: usize|
                self.occupied(n) && old(self).occupied(n) implies #[trigger] self.height(n) == old(self).height(n) by {
                if n != k {
                    assert(mid.occupied(n));
                    assert(mid.height(n) == old(self).height(n));
                    assert(self.height(n) == mid.height(n));
                }
            }
        }
        k
    }

    /// Every child of a live container is live and names it as its container.
    pub proof fn lemma_child_live(&self, c: usize, k: int)
        requires
            self.wf(),
            self.live(c),
            0 <= k < self.content(c).children().len(),
        ensures
            self.live(self.content(c).children()[k]),
            self.parent(self.content(c).children()[k]) == Some(c),
            self.content(c).children()[k] != c,
    {
        assert(self.occupied(c));
        assert(self.node_ok(c));
        let kid = self.content(c).children()[k];
        assert(self.occupied(kid));
        assert(self.node_ok(kid));
    }

    /// Which slots a walk toward the root passes depends on nothing but the
    /// trees that the store holds.
    pub proof fn lemma_reaches_same(a: Store, b: Store, n: usize, t: usize)
        requires
            a.wf(),
            b.wf(),
            a.same_trees(b),
        ensures
            a.reaches(n, t) == b.reaches(n, t),
        decreases usize::MAX - a.height(n),
    {
        if n != t {
            assert(a.occupied(n) == b.occupied(n));
            if a.occupied(n) {
                assert(a.node_ok(n));
                assert(b.node_ok(n));
                if let Some(p) = a.parent(n) {
                    assert(a.occupied(p) == b.occupied(p));
                    if a.occupied(p) {
                        Self::lemma_reaches_same(a, b, p, t);
                    }
                }
            }
        }
    }

    /// Every walk passes the slot it starts from.
    pub proof fn lemma_reaches_self(&self, id: usize)
        ensures
            self.reaches(id, id),
    {
    }

    /// No walk from a container toward the root passes one of its children.
    pub proof fn lemma_child_below(&self, c: usize, k: int)
        requires
            self.wf(),
            self.occupied(c),
            0 <= k < self.content(c).children().len(),
        ensures
            !self.reaches(c, self.content(c).children()[k]),
            self.content(c).children()[k] != c,
    {
        assert(self.node_ok(c));
        let kid = self.content(c).children()[k];
        assert(self.occupied(kid));
        assert(self.node_ok(kid));
        if self.reaches(c, kid) {
            self.lemma_reaches_higher(c, kid);
        }
    }

    /// In the dictionary of a consistent slot every key has its value, and
    /// no key stands twice.
    pub proof fn lemma_dict_shape(&self, id: usize)
        requires
            self.wf(),
            self.occupied(id),
            self.content(id) is Dictionary,
        ensures
            self.content(id)->Dictionary_0.len() == self.content(id)->Dictionary_1.len(),
            distinct_keys(self.content(id)->Dictionary_0),
    {
        assert(self.node_ok(id));
    }

    /// Whether `self` holds every slot of `other` as `other` holds it, ranks
    /// included, and perhaps more slots behind them.
    pub open spec fn extends(&self, other: Store) -> bool {
        &&& other.size() <= self.size()
        &&& forall|n: usize|
            #![trigger self.occupied(n)]
            #![trigger self.content(n)]
            #![trigger self.parent(n)]
            #![trigger self.height(n)]
            n < other.size() ==> (self.occupied(n) == other.occupied(n)) && (
            self.occupied(n) ==> self.content(n) == other.content(n) && self.parent(n)
                == other.parent(n) && self.height(n) == other.height(n))
    }

    /// Whether the tree below slot `b` of `there` is a copy of the tree below
    /// slot `a` of `here`: node by node the same kind and value, the same
    /// keys, and the same number of children in the same order, with every
    /// node of the copy in a slot from `lo` up to, but not including, `hi`.
    pub open spec fn copy_of(here: Store, a: usize, there: Store, b: usize, lo: int, hi: int) -> bool
        decreases here.height(a),
    {
        &&& here.occupied(a)
        &&& there.occupied(b)
        &&& lo <= b < hi
        &&& match here.content(a) {
            Content::Array(x) => {
                &&& there.content(b) is Array
                &&& there.content(b).children().len() == x.len()
                &&& forall|i: int|
                    0 <= i < x.len() ==> here.height(#[trigger] x[i]) < here.height(a)
                        && Self::copy_of(here, x[i], there, there.content(b).children()[i], lo, hi)
            },
            Content::Dictionary(keys, x) => {
                &&& there.content(b) is Dictionary
                &&& there.content(b)->Dictionary_0 == keys
                &&& there.content(b).children().len() == x.len()
                &&& forall|i: int|
                    0 <= i < x.len() ==> here.height(#[trigger] x[i]) < here.height(a)
                        && Self::copy_of(here, x[i], there, there.content(b).children()[i], lo, hi)
            },
            other => there.content(b) == other,
        }
    }

    /// A copy stays a copy when the source is looked up in a store that the
    /// source's store extends, when the copy is looked up in a store that
    /// holds the slots between the bounds as before, and when the bounds
    /// widen.
    pub proof fn lemma_copy_moves(
        first: Store,
        here: Store,
        a: usize,
        there: Store,
        later: Store,
        b: usize,
        lo: int,
        hi: int,
        lo2: int,
        hi2: int,
    )
        requires
            first.wf(),
            here.extends(first),
            first.occupied(a),
            Self::copy_of(here, a, there, b, lo, hi),
            lo2 <= lo,
            hi <= hi2,
            forall|n: usize|
                lo <= n < hi ==> (#[trigger] later.occupied(n) == there.occupied(n)) && (
                later.occupied(n) ==> later.content(n) == there.content(n)),
        ensures
            Self::copy_of(first, a, later, b, lo2, hi2),
        decreases first.height(a),
    {
        assert(first.node_ok(a));
        assert(here.occupied(a) == first.occupied(a));
        assert(later.occupied(b) == there.occupied(b));
        let x = first.content(a).children();
        let y = there.content(b).children();
        if first.content(a).is_container() {
            assert forall|i: int| 0 <= i < x.len() implies first.height(#[trigger] x[i])
                < first.height(a) && Self::copy_of(first, x[i], later, y[i], lo2, hi2) by {
                assert(first.occupied(x[i]));
                assert(first.node_ok(x[i]));
                assert(here.occupied(x[i]) == first.occupied(x[i]));
                assert(Self::copy_of(here, x[i], there, y[i], lo, hi));
                Self::lemma_copy_moves(first, here, x[i], there, later, y[i], lo, hi, lo2, hi2);
            }
        }
    }

    /// A store that extends another holds every old slot live exactly when
    /// the other does.
    pub proof fn lemma_live_extends(a: Store, b: Store, n: usize)
        requires
            a.wf(),
            b.extends(a),
            n < a.size(),
        ensures
            a.live(n) == b.live(n),
        decreases usize::MAX - a.height(n),
    {
        assert(a.occupied(n) == b.occupied(n));
        if a.occupied(n) {
            assert(a.node_ok(n));
            if let Some(p) = a.parent(n) {
                assert(a.occupied(p) == b.occupied(p));
                if a.occupied(p) {
                    Self::lemma_live_extends(a, b, p);
                }
            }
        }
    }

    /// Extending is transitive.
    pub proof fn lemma_extends_trans(&self, mid: Store, first: Store)
        requires
            self.extends(mid),
            mid.extends(first),
        ensures
            self.extends(first),
    {
        assert forall|n: usize| n < first.slots@.len() implies (#[trigger] self.occupied(n)
            == first.occupied(n)) && (self.occupied(n) ==> self.content(n) == first.content(n)
            && self.parent(n) == first.parent(n) && self.height(n) == first.height(n)) by {
            assert(mid.occupied(n) == first.occupied(n));
            assert(self.occupied(n) == mid.occupied(n));
        }
    }

    /// A value like the scalar in slot `id`.
    fn clone_scalar(&self, id: usize) -> (v: Value)
        requires
            self.occupied(id),
            !self.content(id).is_container(),
        ensures
            v@ == self.content(id),
    {
        match self.value_ref(id) {
            Value::Boolean(b) => Value::Boolean(*b),
            Value::UInt(u) => Value::UInt(*u),
            Value::Real(r) => Value::Real(*r),
            Value::String(s) => Value::String(s.clone()),
            Value::Date(sec, usec) => Value::Date(*sec, *usec),
            Value::Data(d) => Value::Data(vstd::slice::slice_to_vec(d.as_slice())),
            Value::Key(s) => Value::Key(s.clone()),
            Value::Uid(u) => Value::Uid(*u),
            _ => Value::Null,
        }
    }

    /// Copies the tree below slot `src` into fresh slots and returns the slot
    /// of the copy's root, which stands in no container. No old slot changes.
    pub(crate) fn copy_node(&mut self, src: usize) -> (dst: usize)
        requires
            old(self).wf(),
            old(self).occupied(src),
        ensures
            final(self).wf(),
            final(self).extends(*old(self)),
            dst == old(self).size(),
            final(self).size() > dst,
            final(self).occupied(dst),
            final(self).parent(dst) is None,
            final(self).height(dst) == old(self).height(src),
            Self::copy_of(*old(self), src, *final(self), dst, dst as int, final(self).size() as int),
        decreases old(self).height(src),
    {
        proof {
            assert(self.node_ok(src));
        }
        let h = match &self.slots[src] {
            Some(node) => node.height,
            None => 0usize,
        };
        let t = self.kind(src);
        if t == PlistType::Array || t == PlistType::Dictionary {
            let is_dict = t == PlistType::Dictionary;
            let dst = if is_dict {
                let keys: Vec<String> = Vec::new();
                proof {
                    assert(key_views(keys@) =~= Seq::empty());
                }
                self.add_root(Value::Dictionary(keys, Vec::new()), h)
            } else {
                self.add_root(Value::Array(Vec::new()), h)
            };
            proof {
                assert(self.occupied(src) == old(self).occupied(src));
            }
            let n = self.child_count(src);
            let ghost x = old(self).content(src).children();
            let ghost ks = if is_dict {
                old(self).content(src)->Dictionary_0
            } else {
                Seq::empty()
            };
            let mut i: usize = 0;
            while i < n
                invariant
                    old(self).wf(),
                    old(self).occupied(src),
                    self.wf(),
                    self.extends(*old(self)),
                    x == old(self).content(src).children(),
                    n == x.len(),
                    i <= n,
                    dst == old(self).size(),
                    self.size() > dst,
                    self.occupied(dst),
                    self.parent(dst) is None,
                    self.height(dst) == old(self).height(src),
                    is_dict == (old(self).content(src) is Dictionary),
                    !is_dict ==> old(self).content(src) is Array,
                    is_dict ==> ks == old(self).content(src)->Dictionary_0 && ks.len() == n
                        && distinct_keys(ks),
                    is_dict == (self.content(dst) is Dictionary),
                    !is_dict ==> self.content(dst) is Array,
                    self.content(dst).children().len() == i,
                    is_dict ==> self.content(dst)->Dictionary_0 == ks.take(i as int),
                    forall|j: int|
                        0 <= j < i ==> Self::copy_of(
                            *old(self),
                            #[trigger] x[j],
                            *self,
                            self.content(dst).children()[j],
                            dst + 1,
                            self.size() as int,
                        ),
                decreases n - i,
            {
                let ghost s_a = *self;
                proof {
                    assert(old(self).node_ok(src));
                    assert(old(self).occupied(x[i as int]));
                    assert(old(self).node_ok(x[i as int]));
                    assert(self.occupied(src) == old(self).occupied(src));
                    assert(self.occupied(x[i as int]) == old(self).occupied(x[i as int]));
                }
                let c = self.child_at(src, i);
                let key = if is_dict {
                    self.key_at(src, i)
                } else {
                    String::new()
                };
                let d = self.copy_node(c);
                let ghost s_b = *self;
                proof {
                    self.lemma_extends_trans(s_a, *old(self));
                    assert(s_b.occupied(dst) == s_a.occupied(dst));
                    if is_dict {
                        let have = ks.take(i as int);
                        assert forall|j: int| 0 <= j < have.len() implies #[trigger] have[j]
                            != key@ by {
                            assert(have[j] == ks[j]);
                        }
                    }
                }
                self.adopt(dst, d, i, key);
                proof {
                    let y_a = s_a.content(dst).children();
                    let y = self.content(dst).children();
                    assert(y == y_a.insert(i as int, d));
                    assert forall|n2: usize| n2 < old(self).slots@.len() implies (
                    #[trigger] self.occupied(n2) == old(self).occupied(n2)) && (self.occupied(n2)
                        ==> self.content(n2) == old(self).content(n2) && self.parent(n2) == old(self).parent(n2) && self.height(n2) == old(self).height(n2)) by {
                        assert(s_b.occupied(n2) == old(self).occupied(n2));
                        assert(self.occupied(n2) == s_b.occupied(n2));
                        if self.occupied(n2) {
                            assert(self.height(n2) == s_b.height(n2));
                        }
                    }
                    assert forall|j: int| 0 <= j < i + 1 implies Self::copy_of(
                        *old(self),
                        #[trigger] x[j],
                        *self,
                        y[j],
                        dst + 1,
                        self.size() as int,
                    ) by {
                        assert(old(self).occupied(x[j]));
                        if j < i {
                            assert(y[j] == y_a[j]);
                            assert forall|n2: usize| dst + 1 <= n2 < s_a.size() implies (
                            #[trigger] self.occupied(n2) == s_a.occupied(n2)) && (self.occupied(n2)
                                ==> self.content(n2) == s_a.content(n2)) by {
                                assert(s_b.occupied(n2) == s_a.occupied(n2));
                                assert(self.occupied(n2) == s_b.occupied(n2));
                            }
                            Self::lemma_copy_moves(
                                *old(self),
                                *old(self),
                                x[j],
                                s_a,
                                *self,
                                y_a[j],
                                dst + 1,
                                s_a.size() as int,
                                dst + 1,
                                self.size() as int,
                            );
                        } else {
                            assert(y[j] == d);
                            assert forall|n2: usize| s_a.size() <= n2 < s_b.size() implies (
                            #[trigger] self.occupied(n2) == s_b.occupied(n2)) && (self.occupied(n2)
                                ==> self.content(n2) == s_b.content(n2)) by {}
                            Self::lemma_copy_moves(
                                *old(self),
                                s_a,
                                x[j],
                                s_b,
                                *self,
                                d,
                                s_a.size() as int,
                                s_b.size() as int,
                                dst + 1,
                                self.size() as int,
                            );
                        }
                    }
                    if is_dict {
                        assert(ks.take(i as int).insert(i as int, key@) =~= ks.take(i + 1));
                    }
                }
                i = i + 1;
            }
            proof {
                let y = self.content(dst).children();
                assert(self.occupied(src) == old(self).occupied(src));
                if is_dict {
                    assert(ks.take(n as int) =~= ks);
                }
                assert forall|j: int| 0 <= j < x.len() implies old(self).height(#[trigger] x[j])
                    < old(self).height(src) && Self::copy_of(
                    *old(self),
                    x[j],
                    *self,
                    y[j],
                    dst as int,
                    self.size() as int,
                ) by {
                    assert(old(self).occupied(x[j]));
                    assert(old(self).node_ok(x[j]));
                    Self::lemma_copy_moves(
                        *old(self),
                        *old(self),
                        x[j],
                        *self,
                        *self,
                        y[j],
                        dst + 1,
                        self.size() as int,
                        dst as int,
                        self.size() as int,
                    );
                }
            }
            dst
        } else {
            let v = self.clone_scalar(src);
            self.add_root(v, h)
        }
    }

    /// A node that stands in no container is live.
    pub proof fn lemma_root_live(&self, id: usize)
        requires
            self.occupied(id),
            self.parent(id) is None,
        ensures
            self.live(id),
    {
    }

    /// A live node that stands in a container reaches it, and a node without
    /// a container reaches nothing but itself.
    pub proof fn lemma_reaches_parent(&self, id: usize, target: usize)
        requires
            self.wf(),
            self.live(id),
        ensures
            self.parent(id) == Some(target) ==> self.reaches(id, target) && self.live(target),
            self.parent(id) is None && target != id ==> !self.reaches(id, target),
    {
        if self.parent(id) == Some(target) {
            assert(self.steps_up(id));
            assert(self.reaches(target, target));
        }
    }

    /// A walk that passes `mid`, from where the walk passes `target`, passes
    /// `target`.
    pub proof fn lemma_reaches_trans(&self, id: usize, mid: usize, target: usize)
        requires
            self.reaches(id, mid),
            self.reaches(mid, target),
        ensures
            self.reaches(id, target),
        decreases usize::MAX - self.height(id),
    {
        if id != mid && id != target {
            self.lemma_reaches_trans(self.parent(id)->0, mid, target);
        }
    }

    /// Whether the node in slot `id` has the highest rank there is, so that
    /// nothing can stand above it.
    pub open spec fn top_ranked(&self, id: usize) -> bool {
        self.height(id) == usize::MAX
    }

    /// Whether the node in slot `id` has the highest rank there is.
    pub(crate) fn is_top_ranked(&self, id: usize) -> (b: bool)
        requires
            self.occupied(id),
        ensures
            b == self.top_ranked(id),
    {
        match &self.slots[id] {
            Some(node) => node.height == usize::MAX,
            None => false,
        }
    }

    /// Below a container that stands in no container itself there is room
    /// for every node but one of the highest rank.
    pub proof fn lemma_root_room(&self, c: usize, r: usize)
        requires
            self.occupied(c),
            self.parent(c) is None,
        ensures
            self.room_for(c, r) == !self.top_ranked(r),
    {
        if self.height(r) < usize::MAX {
            assert(!self.steps_up(c));
        }
    }

    /// Whether `self` holds every slot of `other` but `id` as `other` holds
    /// it, and perhaps more slots behind them. Ranks may differ, but only in
    /// the slots that a walk from `id` passes in `other`.
    pub closed spec fn extends_but(&self, other: Store, id: usize) -> bool {
        &&& other.slots@.len() <= self.slots@.len()
        &&& forall|n: usize|
            n < other.slots@.len() && n != id ==> (#[trigger] self.occupied(n) == other.occupied(
                n,
            )) && (self.occupied(n) ==> self.content(n) == other.content(n) && self.parent(n)
                == other.parent(n) && (!other.reaches(id, n) ==> self.height(n) == other.height(
                n,
            )))
    }

    /// A store that extends another but for a slot that stands in no
    /// container, and that the other did not have at first, extends what the
    /// other extends.
    pub proof fn lemma_extends_but_root(&self, mid: Store, first: Store, id: usize)
        requires
            mid.wf(),
            self.extends_but(mid, id),
            mid.extends(first),
            mid.live(id),
            mid.parent(id) is None,
            id >= first.size(),
        ensures
            self.extends(first),
    {
        assert forall|n: usize| n < first.slots@.len() implies (#[trigger] self.occupied(n)
            == first.occupied(n)) && (self.occupied(n) ==> self.content(n) == first.content(n)
            && self.parent(n) == first.parent(n) && self.height(n) == first.height(n)) by {
            assert(mid.occupied(n) == first.occupied(n));
            assert(self.occupied(n) == mid.occupied(n));
            mid.lemma_reaches_parent(id, n);
        }
    }

    /// Every store extends itself.
    pub proof fn lemma_extends_self(&self)
        ensures
            self.extends(*self),
    {
    }

    /// An occupied slot is one of the slots handed out.
    pub proof fn lemma_occupied_bound(&self, id: usize)
        requires
            self.occupied(id),
        ensures
            id < self.size(),
    {
    }

    /// What the old slots hold in a store that extends another.
    pub proof fn lemma_extends_kept(&self, other: Store, n: usize)
        requires
            self.extends(other),
            n < other.size(),
        ensures
            self.occupied(n) == other.occupied(n),
            self.occupied(n) ==> self.content(n) == other.content(n) && self.parent(n)
                == other.parent(n) && self.top_ranked(n) == other.top_ranked(n),
    {
    }

    /// The room above a slot is the same in a store that extends another.
    proof fn lemma_fits_extends(a: Store, b: Store, id: usize, h: usize)
        requires
            a.wf(),
            b.extends(a),
            a.occupied(id),
        ensures
            a.fits(id, h) == b.fits(id, h),
        decreases usize::MAX - a.height(id),
    {
        assert(a.node_ok(id));
        assert(b.occupied(id) == a.occupied(id));
        if a.height(id) < h {
            if let Some(p) = a.parent(id) {
                assert(b.occupied(p) == a.occupied(p));
                if a.occupied(p) && h < usize::MAX {
                    Self::lemma_fits_extends(a, b, p, (h + 1) as usize);
                }
            }
        }
    }

    /// A walk from an old slot passes the same slots in a store that extends
    /// another.
    proof fn lemma_reaches_extends(a: Store, b: Store, n: usize, t: usize)
        requires
            a.wf(),
            b.extends(a),
            n < a.size(),
        ensures
            a.reaches(n, t) == b.reaches(n, t),
        decreases usize::MAX - a.height(n),
    {
        assert(b.occupied(n) == a.occupied(n));
        if n != t && a.occupied(n) {
            assert(a.node_ok(n));
            if let Some(p) = a.parent(n) {
                assert(b.occupied(p) == a.occupied(p));
                if a.occupied(p) {
                    Self::lemma_reaches_extends(a, b, p, t);
                }
            }
        }
    }

    /// No walk from an old slot passes a slot that was added later.
    proof fn lemma_old_walk(a: Store, b: Store, n: usize, t: usize)
        requires
            a.wf(),
            b.extends(a),
            n < a.size(),
            t >= a.size(),
        ensures
            !b.reaches(n, t),
        decreases usize::MAX - a.height(n),
    {
        assert(b.occupied(n) == a.occupied(n));
        if a.occupied(n) {
            assert(a.node_ok(n));
            if let Some(p) = a.parent(n) {
                assert(b.occupied(p) == a.occupied(p));
                if a.occupied(p) {
                    Self::lemma_old_walk(a, b, p, t);
                }
            }
        }
    }

    /// Copies the tree below slot `src` into fresh slots and puts the copy
    /// below the live container in slot `dst`, at position `index` and under
    /// `key`. Where the ranks above `dst` leave no room for it, nothing that
    /// was there before changes and nothing is returned.
    pub(crate) fn copy_under(&mut self, dst: usize, src: usize, index: usize, key: String) -> (r:
        Option<usize>)
        requires
            old(self).wf(),
            old(self).live(dst),
            old(self).content(dst).is_container(),
            old(self).occupied(src),
            index <= old(self).content(dst).children().len(),
            old(self).content(dst) matches Content::Dictionary(keys, _) ==> key_index(keys, key@)
                is None,
        ensures
            final(self).wf(),
            (r is Some) == old(self).room_for(dst, src),
            forall|n: usize| n < old(self).size() ==> final(self).live(n) == old(self).live(n),
            r is None ==> final(self).extends(*old(self)),
            r matches Some(d) ==> {
                &&& d == old(self).size()
                &&& final(self).size() > d
                &&& final(self).live(d)
                &&& final(self).parent(d) == Some(dst)
                &&& final(self).occupied(dst)
                &&& final(self).parent(dst) == old(self).parent(dst)
                &&& final(self).content(dst) == old(self).content(dst).with_child(
                    index as int,
                    key@,
                    d,
                )
                &&& final(self).extends_but(*old(self), dst)
                &&& Self::copy_of(*old(self), src, *final(self), d, d as int, final(self).size() as int)
            },
    {
        proof {
            old(self).lemma_live_occupied(dst);
        }
        let d = self.copy_node(src);
        let ghost s_b = *self;
        proof {
            assert(s_b.occupied(dst) == old(self).occupied(dst));
            assert(s_b.occupied(src) == old(self).occupied(src));
            Self::lemma_old_walk(*old(self), s_b, dst, d);
            Self::lemma_fits_extends(*old(self), s_b, dst, (old(self).height(src) + 1) as usize);
            assert forall|n: usize| n < old(self).size() implies s_b.live(n) == old(self).live(
                n,
            ) by {
                Self::lemma_live_extends(*old(self), s_b, n);
            }
        }
        if !self.make_room(dst, d) {
            self.free_root(d);
            proof {
                s_b.lemma_reaches_self(d);
                assert forall|n: usize| n < old(self).size() implies self.live(n) == old(self).live(n) by {
                    Self::lemma_old_walk(*old(self), s_b, n, d);
                }
                assert forall|n: usize| n < old(self).slots@.len() implies (
                #[trigger] self.occupied(n) == old(self).occupied(n)) && (self.occupied(n)
                    ==> self.content(n) == old(self).content(n) && self.parent(n) == old(self).parent(n) && self.height(n) == old(self).height(n)) by {
                    assert(s_b.occupied(n) == old(self).occupied(n));
                    assert(self.occupied(n) == s_b.occupied(n));
                    if self.occupied(n) {
                        assert(self.height(n) == s_b.height(n));
                    }
                }
            }
            return None;
        }
        let ghost s_c = *self;
        proof {
            assert(s_c.occupied(dst) == s_b.occupied(dst));
            assert(s_c.occupied(d) == s_b.occupied(d));
        }
        self.adopt(dst, d, index, key);
        proof {
            assert forall|n: usize| n < old(self).slots@.len() && n != dst implies (
            #[trigger] self.occupied(n) == old(self).occupied(n)) && (self.occupied(n)
                ==> self.content(n) == old(self).content(n) && self.parent(n) == old(self).parent(n)
                && (!old(self).reaches(dst, n) ==> self.height(n) == old(self).height(n))) by {
                assert(s_b.occupied(n) == old(self).occupied(n));
                assert(s_c.occupied(n) == s_b.occupied(n));
                assert(self.occupied(n) == s_c.occupied(n));
                if self.occupied(n) && !old(self).reaches(dst, n) {
                    Self::lemma_reaches_extends(*old(self), s_b, dst, n);
                    assert(s_c.height(n) == s_b.height(n));
                    assert(self.height(n) == s_c.height(n));
                }
            }
            assert forall|n: usize| d <= n < s_b.size() implies (#[trigger] self.occupied(n)
                == s_b.occupied(n)) && (self.occupied(n) ==> self.content(n) == s_b.content(n)) by {
                assert(s_c.occupied(n) == s_b.occupied(n));
                assert(self.occupied(n) == s_c.occupied(n));
            }
            Self::lemma_copy_moves(
                *old(self),
                *old(self),
                src,
                s_b,
                *self,
                d,
                d as int,
                s_b.size() as int,
                d as int,
                self.size() as int,
            );
        }
        Some(d)
    }

    /// What the old slots hold in a store that extends another but for one
    /// slot.
    pub proof fn lemma_extends_but_kept(&self, other: Store, id: usize)
        requires
            self.extends_but(other, id),
        ensures
            self.size() >= other.size(),
            forall|n: usize|
                n < other.size() && n != id ==> (#[trigger] self.occupied(n) == other.occupied(n))
                    && (self.occupied(n) ==> self.content(n) == other.content(n)),
    {
    }

    /// The highest rank among the nodes in the slots `ids`; zero where there
    /// are none.
    pub open spec fn tallest(&self, ids: Seq<usize>) -> usize
        decreases ids.len(),
    {
        if ids.len() == 0 {
            0
        } else {
            let rest = self.tallest(ids.drop_last());
            if self.height(ids.last()) > rest {
                self.height(ids.last())
            } else {
                rest
            }
        }
    }

    /// Whether the container in slot `c` has room above it to take, below
    /// it, a node of the rank of each of the nodes in the slots `ids`.
    pub open spec fn room_for_all(&self, c: usize, ids: Seq<usize>) -> bool {
        self.tallest(ids) < usize::MAX && self.fits(c, (self.tallest(ids) + 1) as usize)
    }

    /// The slot of the value that stands under `key` in the dictionary in
    /// slot `c`, if the key is there.
    pub open spec fn dict_value(&self, c: usize, key: Seq<char>) -> Option<usize> {
        match key_index(self.content(c)->Dictionary_0, key) {
            Some(i) => Some(self.content(c)->Dictionary_1[i]),
            None => None,
        }
    }

    /// Whether every slot of `other` but `id` that is still occupied holds in
    /// `self` what it held in `other`, ranks aside.
    pub open spec fn kept_but(&self, other: Store, id: usize) -> bool {
        forall|n: usize|
            #![trigger self.occupied(n)]
            #![trigger self.content(n)]
            #![trigger self.parent(n)]
            n < other.size() && n != id && self.occupied(n) ==> other.occupied(n)
                && self.content(n) == other.content(n) && self.parent(n) == other.parent(n)
    }

    /// Whether the walk from `x` passes a value that stands in the dictionary
    /// in slot `c` under one of the first `upto` of the keys `keys`.
    pub open spec fn below_value_of(
        &self,
        c: usize,
        keys: Seq<Seq<char>>,
        upto: int,
        x: usize,
    ) -> bool {
        exists|t: int|
            0 <= t < upto && t < keys.len() && (#[trigger] self.dict_value(c, keys[t])) is Some
                && self.reaches(x, self.dict_value(c, keys[t])->0)
    }

    /// The walk from a node that is live in `later` passes in `later` what it
    /// passed in `first`, where every old slot that `later` still holds names
    /// the container it named in `first`.
    proof fn lemma_walk_kept(first: Store, later: Store, x: usize, k: usize)
        requires
            first.wf(),
            later.wf(),
            x < first.size(),
            later.live(x),
            forall|n: usize|
                n < first.size() && #[trigger] later.occupied(n) ==> first.occupied(n)
                    && later.parent(n) == first.parent(n),
        ensures
            later.reaches(x, k) == first.reaches(x, k),
        decreases usize::MAX - first.height(x),
    {
        assert(later.occupied(x));
        assert(first.node_ok(x));
        assert(later.node_ok(x));
        if x != k {
            if let Some(p) = later.parent(x) {
                assert(later.steps_up(x));
                assert(later.occupied(p));
                assert(first.occupied(p));
                Self::lemma_walk_kept(first, later, p, k);
            }
        }
    }

    /// No node in the slots `ids` has a rank above the highest among them.
    proof fn lemma_tallest_bound(&self, ids: Seq<usize>, t: int)
        requires
            0 <= t < ids.len(),
        ensures
            self.height(ids[t]) <= self.tallest(ids),
        decreases ids.len(),
    {
        if t < ids.len() - 1 {
            self.lemma_tallest_bound(ids.drop_last(), t);
        }
    }

    /// Copies every value of the dictionary in slot `s` and puts each copy
    /// into the dictionary in slot `c` under its key: in the place of the
    /// value that stood under that key, which is freed with everything below
    /// it, or behind the last entry where the key is new. Where the ranks
    /// above `c` leave no room, no slot that was there before changes.
    pub(crate) fn merge_into(&mut self, c: usize, s: usize) -> (ok: bool)
        requires
            old(self).wf(),
            old(self).live(c),
            old(self).content(c) is Dictionary,
            old(self).occupied(s),
            old(self).content(s) is Dictionary,
        ensures
            final(self).wf(),
            ok == old(self).room_for_all(c, old(self).content(s).children()),
            final(self).size() >= old(self).size(),
            !ok ==> final(self).extends(*old(self)) && forall|n: usize|
                n < old(self).size() ==> final(self).live(n) == old(self).live(n),
            ok ==> {
                let sk = old(self).content(s)->Dictionary_0;
                let sv = old(self).content(s)->Dictionary_1;
                &&& final(self).live(c)
                &&& final(self).content(c) is Dictionary
                &&& final(self).parent(c) == old(self).parent(c)
                &&& final(self).kept_but(*old(self), c)
                &&& forall|j: int|
                    0 <= j < sk.len() ==> final(self).dict_value(c, #[trigger] sk[j]) is Some
                        && Self::copy_of(
                        *old(self),
                        sv[j],
                        *final(self),
                        final(self).dict_value(c, sk[j])->0,
                        old(self).size() as int,
                        final(self).size() as int,
                    )
                &&& forall|key: Seq<char>|
                    !sk.contains(key) ==> #[trigger] final(self).dict_value(c, key) == old(self).dict_value(c, key)
                &&& forall|key: Seq<char>|
                    sk.contains(key) && #[trigger] old(self).dict_value(c, key) is Some
                        ==> !final(self).occupied(old(self).dict_value(c, key)->0)
                &&& forall|x: usize|
                    x < old(self).size() ==> final(self).live(x) == (old(self).live(x) && !old(self).below_value_of(c, sk, sk.len() as int, x))
                &&& old(self).content(c)->Dictionary_0.is_prefix_of(
                    final(self).content(c)->Dictionary_0,
                )
            },
    {
        proof {
            old(self).lemma_live_occupied(c);
            assert(self.node_ok(s));
            assert(self.node_ok(c));
        }
        let ghost sk = old(self).content(s)->Dictionary_0;
        let ghost sv = old(self).content(s)->Dictionary_1;
        let n = self.child_count(s);
        let mut keys: Vec<String> = Vec::new();
        let mut copies: Vec<usize> = Vec::new();
        let mut m: usize = 0;
        let mut j: usize = 0;
        while j < n
            invariant
                old(self).wf(),
                old(self).occupied(s),
                old(self).occupied(c),
                old(self).content(s) is Dictionary,
                sk == old(self).content(s)->Dictionary_0,
                sv == old(self).content(s)->Dictionary_1,
                sv == old(self).content(s).children(),
                sk.len() == n,
                sv.len() == n,
                self.wf(),
                self.extends(*old(self)),
                j <= n,
                keys.len() == j,
                copies.len() == j,
                m == old(self).tallest(sv.take(j as int)),
                forall|t: int| 0 <= t < j ==> (#[trigger] keys[t])@ == sk[t],
                forall|t: int|
                    0 <= t < j ==> old(self).size() <= (#[trigger] copies[t]) < self.size()
                        && self.occupied(copies[t]) && self.parent(copies[t]) is None
                        && self.height(copies[t]) == old(self).height(sv[t]) && Self::copy_of(
                        *old(self),
                        sv[t],
                        *self,
                        copies[t],
                        old(self).size() as int,
                        self.size() as int,
                    ),
                forall|t1: int, t2: int|
                    0 <= t1 < t2 < j ==> (#[trigger] copies[t1]) != (#[trigger] copies[t2]),
            decreases n - j,
        {
            let ghost s_a = *self;
            proof {
                assert(self.occupied(s) == old(self).occupied(s));
                assert(old(self).node_ok(s));
                assert(old(self).occupied(sv[j as int]));
                assert(self.occupied(sv[j as int]) == old(self).occupied(sv[j as int]));
                assert(sv.take(j + 1).drop_last() =~= sv.take(j as int));
                assert(sv.take(j + 1).last() == sv[j as int]);
            }
            let v = self.child_at(s, j);
            let key = self.key_at(s, j);
            let h = match &self.slots[v] {
                Some(node) => node.height,
                None => 0usize,
            };
            if h > m {
                m = h;
            }
            let d = self.copy_node(v);
            keys.push(key);
            copies.push(d);
            proof {
                self.lemma_extends_trans(s_a, *old(self));
                assert forall|t: int| 0 <= t < j + 1 implies old(self).size() <= (
                #[trigger] copies[t]) < self.size() && self.occupied(copies[t]) && self.parent(
                    copies[t],
                ) is None && self.height(copies[t]) == old(self).height(sv[t]) && Self::copy_of(
                    *old(self),
                    sv[t],
                    *self,
                    copies[t],
                    old(self).size() as int,
                    self.size() as int,
                ) by {
                    assert(old(self).occupied(sv[t]));
                    if t < j {
                        assert(self.occupied(copies[t]) == s_a.occupied(copies[t]));
                        assert forall|x: usize| old(self).size() <= x < s_a.size() implies (
                        #[trigger] self.occupied(x) == s_a.occupied(x)) && (self.occupied(x)
                            ==> self.content(x) == s_a.content(x)) by {}
                        Self::lemma_copy_moves(
                            *old(self),
                            *old(self),
                            sv[t],
                            s_a,
                            *self,
                            copies[t],
                            old(self).size() as int,
                            s_a.size() as int,
                            old(self).size() as int,
                            self.size() as int,
                        );
                    } else {
                        Self::lemma_copy_moves(
                            *old(self),
                            s_a,
                            sv[t],
                            *self,
                            *self,
                            d,
                            d as int,
                            self.size() as int,
                            old(self).size() as int,
                            self.size() as int,
                        );
                    }
                }
            }
            j = j + 1;
        }
        let ghost s_b = *self;
        proof {
            assert(sv.take(n as int) =~= sv);
            assert(self.occupied(c) == old(self).occupied(c));
            if m < usize::MAX {
                Self::lemma_fits_extends(*old(self), s_b, c, (m + 1) as usize);
            }
        }
        let roomy = if m == usize::MAX {
            false
        } else {
            self.raise(c, m + 1)
        };
        if !roomy {
            let mut t: usize = 0;
            while t < copies.len()
                invariant
                    old(self).wf(),
                    self.wf(),
                    self.extends(*old(self)),
                    t <= copies.len(),
                    forall|u: int|
                        t <= u < copies.len() ==> old(self).size() <= (#[trigger] copies[u])
                            && self.occupied(copies[u]) && self.parent(copies[u]) is None,
                    forall|t1: int, t2: int|
                        0 <= t1 < t2 < copies.len() ==> (#[trigger] copies[t1]) != (
                        #[trigger] copies[t2]),
                decreases copies.len() - t,
            {
                let ghost before = *self;
                self.free_root(copies[t]);
                proof {
                    assert forall|x: usize| x < old(self).slots@.len() implies (
                    #[trigger] self.occupied(x) == old(self).occupied(x)) && (self.occupied(x)
                        ==> self.content(x) == old(self).content(x) && self.parent(x) == old(self).parent(x) && self.height(x) == old(self).height(x)) by {
                        assert(before.occupied(x) == old(self).occupied(x));
                        assert(self.occupied(x) == before.occupied(x));
                        if self.occupied(x) {
                            assert(self.height(x) == before.height(x));
                        }
                    }
                    assert forall|u: int| t + 1 <= u < copies.len() implies old(self).size() <= (
                    #[trigger] copies[u]) && self.occupied(copies[u]) && self.parent(copies[u])
                        is None by {
                        assert(copies[u] != copies[t as int]);
                        assert(self.occupied(copies[u]) == before.occupied(copies[u]));
                    }
                }
                t = t + 1;
            }
            proof {
                assert forall|x: usize| x < old(self).size() implies self.live(x) == old(self).live(x) by {
                    Self::lemma_live_extends(*old(self), *self, x);
                }
            }
            return false;
        }
        let ghost s_r = *self;
        proof {
            assert forall|t: int| 0 <= t < n implies self.occupied(#[trigger] copies[t])
                && self.parent(copies[t]) is None && self.height(copies[t]) < self.height(c) by {
                assert(s_b.occupied(copies[t]));
                assert(self.occupied(copies[t]) == s_b.occupied(copies[t]));
                Self::lemma_old_walk(*old(self), s_b, c, copies[t]);
                old(self).lemma_tallest_bound(sv, t);
            }
            assert(self.occupied(c) == s_b.occupied(c));
            assert(s_b.occupied(c) == old(self).occupied(c));
            Self::lemma_live_same(s_b, *self, c);
            Self::lemma_live_extends(*old(self), s_b, c);
            assert forall|x: usize|
                x < old(self).slots@.len() && x != c && #[trigger] self.occupied(
                    x,
                ) implies old(self).occupied(x) && self.content(x) == old(self).content(x)
                && self.parent(x) == old(self).parent(x) by {
                assert(s_b.occupied(x) == old(self).occupied(x));
                assert(self.occupied(x) == s_b.occupied(x));
            }
            assert forall|x: usize| x < old(self).size() implies self.live(x) == old(self).live(
                x,
            ) by {
                assert(self.occupied(x) == s_b.occupied(x));
                if s_b.occupied(x) {
                    Self::lemma_live_same(s_b, *self, x);
                }
                Self::lemma_live_extends(*old(self), s_b, x);
            }
        }
        let mut j: usize = 0;
        while j < n
            invariant
                old(self).wf(),
                old(self).occupied(c),
                old(self).content(c) is Dictionary,
                sk.len() == n,
                sv.len() == n,
                distinct_keys(sk),
                keys.len() == n,
                copies.len() == n,
                j <= n,
                self.wf(),
                self.live(c),
                self.occupied(c),
                self.content(c) is Dictionary,
                self.parent(c) == old(self).parent(c),
                self.slots@.len() == s_b.slots@.len(),
                c < old(self).size(),
                old(self).size() <= s_b.size(),
                self.kept_but(*old(self), c),
                forall|t: int| 0 <= t < n ==> (#[trigger] keys[t])@ == sk[t],
                forall|t: int| 0 <= t < n ==> old(self).size() <= (#[trigger] copies[t]),
                forall|t1: int, t2: int|
                    0 <= t1 < t2 < n ==> (#[trigger] copies[t1]) != (#[trigger] copies[t2]),
                forall|t: int|
                    j <= t < n ==> self.occupied(#[trigger] copies[t]) && self.parent(copies[t])
                        is None && self.height(copies[t]) < self.height(c),
                forall|t: int|
                    0 <= t < j ==> self.dict_value(c, #[trigger] sk[t]) == Some(copies[t]),
                forall|t: int|
                    0 <= t < j && old(self).dict_value(c, #[trigger] sk[t]) is Some
                        ==> !self.occupied(old(self).dict_value(c, sk[t])->0),
                forall|x: usize|
                    x < old(self).size() ==> self.live(x) == (old(self).live(x) && !old(self).below_value_of(c, sk, j as int, x)),
                old(self).content(c)->Dictionary_0.is_prefix_of(self.content(c)->Dictionary_0),
                forall|key: Seq<char>|
                    (forall|t: int| 0 <= t < j ==> sk[t] != key) ==> #[trigger] self.dict_value(
                        c,
                        key,
                    ) == old(self).dict_value(c, key),
                forall|x: usize|
                    old(self).size() <= x < s_b.size() ==> (#[trigger] self.occupied(x)
                        == s_b.occupied(x)) && (self.occupied(x) ==> self.content(x)
                        == s_b.content(x)),
            decreases n - j,
        {
            let ghost before = *self;
            let ghost bk = before.content(c)->Dictionary_0;
            let ghost bn = before.content(c)->Dictionary_1;
            proof {
                assert(before.node_ok(c));
                assert forall|t: int| 0 <= t < j implies sk[t] != sk[j as int] by {}
                assert(before.dict_value(c, sk[j as int]) == old(self).dict_value(c, sk[j as int]));
            }
            let key = keys[j].clone();
            let d = copies[j];
            match self.find_key(c, &key) {
                Some(i) => {
                    proof {
                        assert(old(self).node_ok(c));
                        let oi = key_index(old(self).content(c)->Dictionary_0, sk[j as int])->0;
                        assert(old(self).occupied(old(self).content(c).children()[oi]));
                    }
                    let k = self.swap_child(c, d, i);
                    proof {
                        before.lemma_child_below(c, i as int);
                        assert(k < old(self).size());
                        let ak = self.content(c)->Dictionary_0;
                        let an = self.content(c)->Dictionary_1;
                        assert(ak == bk);
                        assert(an == bn.update(i as int, d));
                        assert forall|q: Seq<char>| #[trigger]
                            self.dict_value(c, q) == (if q == sk[j as int] {
                                Some(d)
                            } else {
                                before.dict_value(c, q)
                            }) by {
                            if q == sk[j as int] {
                                Self::lemma_key_at(bk, q, i as int);
                            } else if key_index(bk, q) is Some {
                                let qi = key_index(bk, q)->0;
                                assert(qi != i);
                            }
                        }
                    }
                },
                None => {
                    let end = self.child_count(c);
                    self.adopt(c, d, end, key);
                    proof {
                        assert(self.node_ok(c));
                        let ak = self.content(c)->Dictionary_0;
                        let an = self.content(c)->Dictionary_1;
                        assert(ak == bk.insert(end as int, sk[j as int]));
                        assert(an == bn.insert(end as int, d));
                        assert forall|q: Seq<char>| #[trigger]
                            self.dict_value(c, q) == (if q == sk[j as int] {
                                Some(d)
                            } else {
                                before.dict_value(c, q)
                            }) by {
                            if q == sk[j as int] {
                                Self::lemma_key_at(ak, q, end as int);
                            } else if key_index(bk, q) is Some {
                                let qi = key_index(bk, q)->0;
                                assert(ak[qi] == bk[qi]);
                                Self::lemma_key_at(ak, q, qi);
                                assert(an[qi] == bn[qi]);
                            } else {
                                assert forall|x: int| 0 <= x < ak.len() implies #[trigger] ak[x]
                                    != q by {
                                    if x < end {
                                        assert(ak[x] == bk[x]);
                                    }
                                }
                            }
                        }
                    }
                },
            }
            proof {
                assert forall|t: int| j + 1 <= t < n implies self.occupied(#[trigger] copies[t])
                    && self.parent(copies[t]) is None && self.height(copies[t]) < self.height(
                    c,
                ) by {
                    assert(copies[t] != d);
                    assert(before.occupied(copies[t]));
                    assert(self.occupied(copies[t]) == before.occupied(copies[t]));
                    assert(self.height(copies[t]) == before.height(copies[t]));
                    assert(self.height(c) == before.height(c));
                }
                assert forall|t: int|
                    0 <= t < j + 1 && old(self).dict_value(
                        c,
                        #[trigger] sk[t],
                    ) is Some implies !self.occupied(old(self).dict_value(c, sk[t])->0) by {
                    let kt = old(self).dict_value(c, sk[t])->0;
                    if t < j {
                        assert(!before.occupied(kt));
                        assert(before.occupied(c));
                        assert(before.occupied(d));
                        assert(self.occupied(kt) == before.occupied(kt));
                    }
                }
                assert forall|x: usize| x < old(self).size() implies self.live(x) == (old(self).live(
                    x,
                ) && !old(self).below_value_of(c, sk, j + 1, x)) by {
                    let first = *old(self);
                    let was = first.below_value_of(c, sk, j as int, x);
                    let now = first.below_value_of(c, sk, j + 1, x);
                    let hit = first.dict_value(c, sk[j as int]) is Some && first.reaches(
                        x,
                        first.dict_value(c, sk[j as int])->0,
                    );
                    assert(now == (was || hit)) by {
                        if was {
                            let t = choose|t: int|
                                0 <= t < j && t < sk.len() && (#[trigger] first.dict_value(
                                    c,
                                    sk[t],
                                )) is Some && first.reaches(x, first.dict_value(c, sk[t])->0);
                            assert(0 <= t < j + 1);
                        }
                        if hit {
                            assert(first.dict_value(c, sk[j as int]) is Some);
                        }
                        if now {
                            let t = choose|t: int|
                                0 <= t < j + 1 && t < sk.len() && (#[trigger] first.dict_value(
                                    c,
                                    sk[t],
                                )) is Some && first.reaches(x, first.dict_value(c, sk[t])->0);
                            if t < j {
                                assert(was);
                            } else {
                                assert(hit);
                            }
                        }
                    }
                    if before.live(x) {
                        if first.dict_value(c, sk[j as int]) is Some {
                            assert forall|n: usize|
                                n < first.size() && #[trigger] before.occupied(
                                    n,
                                ) implies first.occupied(n) && before.parent(n) == first.parent(
                                n,
                            ) by {}
                            Self::lemma_walk_kept(
                                first,
                                before,
                                x,
                                first.dict_value(c, sk[j as int])->0,
                            );
                        }
                    }
                    assert(self.live(x) == (before.live(x) && !hit));
                }
                assert forall|t: int| 0 <= t < j + 1 implies self.dict_value(c, #[trigger] sk[t])
                    == Some(copies[t]) by {
                    if t < j {
                        assert(sk[t] != sk[j as int]);
                        assert(before.dict_value(c, sk[t]) == Some(copies[t]));
                    }
                }
                assert forall|q: Seq<char>|
                    (forall|t: int| 0 <= t < j + 1 ==> sk[t] != q) implies #[trigger] self.dict_value(
                    c,
                    q,
                ) == old(self).dict_value(c, q) by {
                    assert(sk[j as int] != q);
                    assert(before.dict_value(c, q) == old(self).dict_value(c, q));
                }
                assert forall|x: usize|
                    x < old(self).slots@.len() && x != c && #[trigger] self.occupied(
                        x,
                    ) implies old(self).occupied(x) && self.content(x) == old(self).content(x)
                    && self.parent(x) == old(self).parent(x) by {
                    assert(before.occupied(x));
                }
                assert forall|x: usize| old(self).size() <= x < s_b.size() implies (
                #[trigger] self.occupied(x) == s_b.occupied(x)) && (self.occupied(x)
                    ==> self.content(x) == s_b.content(x)) by {
                    assert(before.occupied(x) == s_b.occupied(x));
                    if x != d {
                        assert(self.occupied(x) == before.occupied(x));
                    }
                }
            }
            j = j + 1;
        }
        proof {
            assert forall|t: int| 0 <= t < sk.len() implies self.dict_value(c, #[trigger] sk[t])
                is Some && Self::copy_of(
                *old(self),
                sv[t],
                *self,
                self.dict_value(c, sk[t])->0,
                old(self).size() as int,
                self.size() as int,
            ) by {
                assert(old(self).node_ok(s));
                assert(old(self).occupied(sv[t]));
                assert(old(self).size() <= copies[t]);
                old(self).lemma_extends_self();
                Self::lemma_copy_moves(
                    *old(self),
                    *old(self),
                    sv[t],
                    s_b,
                    *self,
                    copies[t],
                    old(self).size() as int,
                    s_b.size() as int,
                    old(self).size() as int,
                    self.size() as int,
                );
            }
            assert forall|key: Seq<char>| !sk.contains(key) implies #[trigger] self.dict_value(
                c,
                key,
            ) == old(self).dict_value(c, key) by {
                assert forall|t: int| 0 <= t < n implies sk[t] != key by {
                    if sk[t] == key {
                        assert(sk.contains(key));
                    }
                }
            }
            assert forall|key: Seq<char>|
                sk.contains(key) && #[trigger] old(self).dict_value(
                    c,
                    key,
                ) is Some implies !self.occupied(old(self).dict_value(c, key)->0) by {
                let t = choose|t: int| 0 <= t < sk.len() && sk[t] == key;
                assert(old(self).dict_value(c, sk[t]) is Some);
            }
        }
        true
    }

    /// In a sequence of distinct keys, a key is found exactly at the position
    /// where it stands.
    pub proof fn lemma_key_at(keys: Seq<Seq<char>>, key: Seq<char>, i: int)
        requires
            distinct_keys(keys),
            0 <= i < keys.len(),
            keys[i] == key,
        ensures
            key_index(keys, key) == Some(i),
    {
        let j = choose|j: int| 0 <= j < keys.len() && #[trigger] keys[j] == key;
        assert(j == i);
    }

    /// Whether the node in slot `id` names a container whose slot is empty.
    pub closed spec fn orphaned(&self, id: usize) -> bool {
        &&& self.occupied(id)
        &&& self.parent(id) matches Some(p)
        &&& !self.occupied(p)
    }

    /// A walk from a live node passes live nodes only.
    pub proof fn lemma_live_walk(&self, id: usize, target: usize)
        requires
            self.live(id),
            self.reaches(id, target),
        ensures
            self.live(target),
        decreases usize::MAX - self.height(id),
    {
        if id != target {
            self.lemma_live_walk(self.parent(id)->0, target);
        }
    }

    /// Where no node is orphaned, every node that holds a slot is live.
    proof fn lemma_settled(&self, id: usize)
        requires
            self.wf(),
            forall|x: usize| !self.orphaned(x),
            self.occupied(id),
        ensures
            self.live(id),
        decreases usize::MAX - self.height(id),
    {
        assert(self.node_ok(id));
        assert(!self.orphaned(id));
        if let Some(p) = self.parent(id) {
            self.lemma_settled(p);
        }
    }

    /// Emptying a filled slot leaves fewer filled slots.
    proof fn lemma_filled_less(slots: Seq<Option<Node>>, i: int)
        requires
            0 <= i < slots.len(),
            slots[i] is Some,
        ensures
            filled(slots.update(i, None)) < filled(slots),
        decreases slots.len(),
    {
        let after = slots.update(i, None);
        if i == slots.len() - 1 {
            assert(after.drop_last() =~= slots.drop_last());
        } else {
            assert(after.drop_last() =~= slots.drop_last().update(i, None));
            Self::lemma_filled_less(slots.drop_last(), i);
        }
    }

    /// Empties the slot of every node that is not live: the nodes below a
    /// freed root or a freed child. Exactly the live nodes keep their slots,
    /// and they keep them as they are.
    pub fn reclaim(&mut self)
        requires
            old(self).wf(),
        ensures
            final(self).wf(),
            final(self).size() == old(self).size(),
            final(self).same_ranks(*old(self)),
            forall|n: usize| final(self).live(n) == old(self).live(n),
            forall|n: usize| final(self).occupied(n) == old(self).live(n),
            forall|n: usize|
                #[trigger] final(self).occupied(n) ==> final(self).content(n) == old(self).content(
                    n,
                ) && final(self).parent(n) == old(self).parent(n),
    {
        let mut go = true;
        while go
            invariant
                self.wf(),
                self.slots@.len() == old(self).slots@.len(),
                forall|n: usize| self.live(n) == old(self).live(n),
                forall|n: usize|
                    #[trigger] self.occupied(n) ==> old(self).occupied(n) && self.content(n)
                        == old(self).content(n) && self.parent(n) == old(self).parent(n)
                        && self.height(n) == old(self).height(n),
                !go ==> forall|x: usize| !self.orphaned(x),
            decreases
                    (if go {
                        filled(self.slots@) + 1
                    } else {
                        0
                    }),
        {
            let ghost start = *self;
            let mut changed = false;
            let mut i: usize = 0;
            while i < self.slots.len()
                invariant
                    self.wf(),
                    start.wf(),
                    i <= self.slots@.len(),
                    self.slots@.len() == old(self).slots@.len(),
                    self.slots@.len() == start.slots@.len(),
                    forall|n: usize| self.live(n) == old(self).live(n),
                    forall|n: usize|
                        #[trigger] self.occupied(n) ==> old(self).occupied(n) && self.content(n)
                            == old(self).content(n) && self.parent(n) == old(self).parent(n)
                            && self.height(n) == old(self).height(n),
                    !changed ==> self.slots@ == start.slots@,
                    !changed ==> forall|x: usize| x < i ==> !self.orphaned(x),
                    changed ==> filled(self.slots@) < filled(start.slots@),
                    filled(self.slots@) <= filled(start.slots@),
                decreases self.slots@.len() - i,
            {
                let up = match &self.slots[i] {
                    Some(node) => node.parent,
                    None => None,
                };
                proof {
                    if self.occupied(i) {
                        assert(self.node_ok(i));
                    }
                }
                let lost = match up {
                    Some(p) => self.slots[p].is_none(),
                    None => false,
                };
                if lost {
                    let ghost before = *self;
                    self.slots[i] = None;
                    changed = true;
                    proof {
                        Self::lemma_filled_less(before.slots@, i as int);
                        assert forall|n: usize| #[trigger] self.occupied(n) implies self.node_ok(
                            n,
                        ) by {
                            assert(before.occupied(n));
                            assert(before.node_ok(n));
                            let nk = before.content(n).children();
                            assert forall|j: int| 0 <= j < nk.len() implies self.occupied(
                                #[trigger] nk[j],
                            ) && self.parent(nk[j]) == Some(n) by {
                                assert(before.occupied(nk[j]));
                            }
                        }
                        assert forall|n: usize| self.live(n) == old(self).live(n) by {
                            Self::lemma_live_cut(before, *self, i, n);
                            if before.live(n) && before.reaches(n, i) {
                                before.lemma_live_walk(n, i);
                            }
                        }
                        assert forall|n: usize| #[trigger] self.occupied(n) implies old(self).occupied(n) && self.content(n) == old(self).content(n) && self.parent(n)
                            == old(self).parent(n) && self.height(n) == old(self).height(n) by {
                            assert(before.occupied(n));
                        }
                    }
                }
                i = i + 1;
            }
            go = changed;
        }
        proof {
            assert forall|n: usize| self.occupied(n) == old(self).live(n) by {
                if self.occupied(n) {
                    self.lemma_settled(n);
                }
            }
        }
    }

    /// The number of slots handed out so far.
    pub(crate) fn size_now(&self) -> (n: usize)
        ensures
            n == self.size(),
    {
        self.slots.len()
    }

    /// No slot that was never handed out holds a live node.
    pub proof fn lemma_dead_beyond(&self)
        ensures
            forall|x: usize| x >= self.size() ==> !self.live(x),
    {
    }

    /// Writes the tree below slot `id` down behind the records that are
    /// there: first the record of `id`, with `parent` and `key` as given,
    /// then the records of everything below it.
    pub(crate) fn flatten_node(
        &self,
        id: usize,
        parent: usize,
        key: String,
        records: &mut Vec<Record>,
        slots: &mut Vec<usize>,
    )
        requires
            self.wf(),
            self.occupied(id),
            old(records)@.len() == old(slots)@.len(),
            old(records)@.len() > 0 ==> parent < old(records)@.len(),
            forall|j: int| 0 < j < old(records)@.len() ==> (#[trigger] old(records)@[j]).parent < j,
        ensures
            final(records)@.len() == final(slots)@.len(),
            final(records)@.len() > old(records)@.len(),
            old(records)@.is_prefix_of(final(records)@),
            old(slots)@.is_prefix_of(final(slots)@),
            final(slots)@[old(records)@.len() as int] == id,
            final(records)@[old(records)@.len() as int].parent == parent,
            final(records)@[old(records)@.len() as int].key@ == key@,
            final(records)@[old(records)@.len() as int].value@.childless(),
            forall|j: int|
                old(records)@.len() < j < final(records)@.len() ==> old(records)@.len() <= (
                #[trigger] final(records)@[j]).parent < j,
            forall|j: int|
                old(records)@.len() < j < final(records)@.len() ==> #[trigger] valid_at(
                    final(records)@,
                    j,
                ),
            forall|i: int|
                old(records)@.len() <= i < final(records)@.len() ==> #[trigger] held(
                    self,
                    final(records)@,
                    final(slots)@,
                    i,
                    final(records)@.len() as int,
                ),
        decreases self.height(id),
    {
        proof {
            assert(self.node_ok(id));
        }
        let me = records.len();
        let t = self.kind(id);
        let is_dict = t == PlistType::Dictionary;
        let is_array = t == PlistType::Array;
        let value = if is_dict {
            let keys: Vec<String> = Vec::new();
            proof {
                assert(key_views(keys@) =~= Seq::empty());
            }
            Value::Dictionary(keys, Vec::new())
        } else if is_array {
            Value::Array(Vec::new())
        } else {
            self.clone_scalar(id)
        };
        records.push(Record { parent, key, value });
        slots.push(id);
        proof {
            assert forall|j: int| 0 < j < me + 1 implies (#[trigger] records@[j]).parent < j by {
                if j < me {
                    assert(records@[j] == old(records)@[j]);
                }
            }
            lemma_no_early_kids(records@, slots@, me as int, me + 1);
        }
        let ghost kids = self.content(id).children();
        let ghost dkeys = if is_dict {
            self.content(id)->Dictionary_0
        } else {
            Seq::empty()
        };
        if is_dict || is_array {
            let n = self.child_count(id);
            let mut k: usize = 0;
            while k < n
                invariant
                    self.wf(),
                    self.occupied(id),
                    me == old(records)@.len(),
                    records@.len() == slots@.len(),
                    records@.len() > me,
                    old(records)@.is_prefix_of(records@),
                    old(slots)@.is_prefix_of(slots@),
                    slots@[me as int] == id,
                    records@[me as int].parent == parent,
                    records@[me as int].key@ == key@,
                    records@[me as int].value@.childless(),
                    is_dict == (self.content(id) is Dictionary),
                    is_array == (self.content(id) is Array),
                    is_dict == (records@[me as int].value@ is Dictionary),
                    is_array == (records@[me as int].value@ is Array),
                    is_dict || is_array,
                    kids == self.content(id).children(),
                    n == kids.len(),
                    k <= n,
                    is_dict ==> dkeys == self.content(id)->Dictionary_0 && dkeys.len() == n
                        && distinct_keys(dkeys),
                    kid_slots(records@, slots@, me as int, records@.len() as int) == kids.take(
                        k as int,
                    ),
                    is_dict ==> kid_keys(records@, me as int, records@.len() as int) == dkeys.take(
                        k as int,
                    ),
                    forall|j: int|
                        me < j < records@.len() ==> me <= (#[trigger] records@[j]).parent < j,
                    forall|j: int| 0 < j <= me ==> (#[trigger] records@[j]).parent < j,
                    forall|j: int| me < j < records@.len() ==> #[trigger] valid_at(records@, j),
                    forall|i: int|
                        me < i < records@.len() ==> #[trigger] held(
                            self,
                            records@,
                            slots@,
                            i,
                            records@.len() as int,
                        ),
                decreases n - k,
            {
                let ghost ra = records@;
                let ghost sa = slots@;
                let ghost a = records@.len() as int;
                proof {
                    assert(self.occupied(kids[k as int]));
                    assert(self.node_ok(kids[k as int]));
                }
                let c = self.child_at(id, k);
                let ckey = if is_dict {
                    self.key_at(id, k)
                } else {
                    String::new()
                };
                self.flatten_node(c, me, ckey, records, slots);
                proof {
                    let rb = records@;
                    let sb = slots@;
                    let b = rb.len() as int;
                    assert forall|j: int| 0 <= j < a implies ra[j] == rb[j] && sa[j] == sb[j] by {}
                    // the children of this node
                    assert forall|j: int| a + 1 <= j < b implies !is_kid(rb, me as int, j) by {
                        assert(a <= rb[j].parent);
                    }
                    lemma_kids_skip(rb, sb, me as int, a + 1, b);
                    lemma_kids_same(ra, sa, rb, sb, me as int, a);
                    assert(is_kid(rb, me as int, a));
                    assert(kid_slots(rb, sb, me as int, a + 1) == kid_slots(rb, sb, me as int, a).push(
                        sb[a],
                    ));
                    assert(kids.take(k as int).push(kids[k as int]) =~= kids.take(k + 1));
                    if is_dict {
                        assert(kid_keys(rb, me as int, a + 1) == kid_keys(rb, me as int, a).push(
                            rb[a].key@,
                        ));
                        assert(dkeys.take(k as int).push(dkeys[k as int]) =~= dkeys.take(k + 1));
                        let have = dkeys.take(k as int);
                        assert forall|x: int| 0 <= x < have.len() implies #[trigger] have[x]
                            != dkeys[k as int] by {
                            assert(have[x] == dkeys[x]);
                        }
                    }
                    assert(valid_at(rb, a));
                    assert forall|j: int| me < j < b implies #[trigger] valid_at(rb, j) by {
                        if j < a {
                            assert(valid_at(ra, j));
                            lemma_kids_same(ra, sa, rb, sb, ra[j].parent as int, j);
                        }
                    }
                    assert forall|j: int| me < j < b implies me <= (#[trigger] rb[j]).parent < j by {
                        if j < a {
                            assert(me <= ra[j].parent < j);
                        }
                    }
                    assert forall|i: int| me < i < b implies #[trigger] held(self, rb, sb, i, b) by {
                        if i < a {
                            assert(held(self, ra, sa, i, a));
                            assert forall|j: int| a <= j < b implies !is_kid(rb, i, j) by {
                                assert(rb[j].parent == me || a <= rb[j].parent);
                            }
                            lemma_kids_skip(rb, sb, i, a, b);
                            lemma_kids_same(ra, sa, rb, sb, i, a);
                        }
                    }
                }
                k = k + 1;
            }
            proof {
                assert(kids.take(n as int) =~= kids);
                if is_dict {
                    assert(dkeys.take(n as int) =~= dkeys);
                }
                assert(held(self, records@, slots@, me as int, records@.len() as int));
            }
        } else {
            proof {
                assert(held(self, records@, slots@, me as int, records@.len() as int));
            }
        }
    }

    /// Every child has a rank below that of its container.
    pub proof fn lemma_child_lower(&self, c: usize, k: int)
        requires
            self.wf(),
            self.occupied(c),
            0 <= k < self.content(c).children().len(),
        ensures
            self.height(self.content(c).children()[k]) < self.height(c),
    {
        assert(self.node_ok(c));
        let kid = self.content(c).children()[k];
        assert(self.occupied(kid));
        assert(self.node_ok(kid));
    }

    /// The slots handed out can be counted by the machine.
    pub proof fn lemma_size_bound(&self)
        ensures
            self.size() <= usize::MAX,
    {
        assert(self.slots@.len() == self.slots.len());
    }

    /// A live node's slot is occupied.
    pub proof fn lemma_live_occupied(&self, id: usize)
        ensures
            self.live(id) ==> self.occupied(id),
    {
    }

    /// A walk toward the root only meets ranks higher than the one it
    /// started from.
    pub proof fn lemma_reaches_higher(&self, id: usize, target: usize)
        requires
            self.reaches(id, target),
            id != target,
        ensures
            self.occupied(target),
            self.height(target) > self.height(id),
        decreases usize::MAX - self.height(id),
    {
        let p = self.parent(id)->0;
        if p != target {
            self.lemma_reaches_higher(p, target);
        }
    }

    /// Putting the root `r` below a live container `c` that does not stand
    /// below `r` changes no node's liveness.
    proof fn lemma_live_linked(a: Store, b: Store, c: usize, r: usize, n: usize)
        requires
            a.wf(),
            b.wf(),
            a.slots@.len() == b.slots@.len(),
            forall|i: usize| a.occupied(i) == b.occupied(i),
            forall|i: usize| i != r && a.occupied(i) ==> a.parent(i) == b.parent(i),
            a.occupied(r),
            a.parent(r) is None,
            b.parent(r) == Some(c),
            a.live(c),
            !a.reaches(c, r),
        ensures
            a.live(n) == b.live(n),
        decreases usize::MAX - a.height(n), (if n == r { 1int } else { 0int }),
    {
        if a.occupied(n) {
            assert(a.node_ok(n));
            assert(b.occupied(n));
            assert(b.node_ok(n));
            if n == r {
                assert(a.occupied(c));
                assert(b.occupied(c));
                Self::lemma_live_off(a, b, r, c);
            } else if let Some(p) = a.parent(n) {
                if a.occupied(p) {
                    assert(b.occupied(p));
                    Self::lemma_live_linked(a, b, c, r, p);
                } else {
                    assert(!b.occupied(p));
                }
            }
        } else {
            assert(!b.occupied(n));
        }
    }

    /// A change to the container that slot `r` names leaves alone every node
    /// whose walk toward the root does not pass `r`.
    proof fn lemma_live_off(a: Store, b: Store, r: usize, n: usize)
        requires
            a.wf(),
            b.wf(),
            a.slots@.len() == b.slots@.len(),
            forall|i: usize| a.occupied(i) == b.occupied(i),
            forall|i: usize| i != r && a.occupied(i) ==> a.parent(i) == b.parent(i),
            !a.reaches(n, r),
        ensures
            a.live(n) == b.live(n),
        decreases usize::MAX - a.height(n),
    {
        if a.occupied(n) {
            assert(a.node_ok(n));
            assert(b.occupied(n));
            assert(b.node_ok(n));
            if let Some(p) = a.parent(n) {
                if a.occupied(p) {
                    assert(b.occupied(p));
                    Self::lemma_live_off(a, b, r, p);
                } else {
                    assert(!b.occupied(p));
                }
            }
        } else {
            assert(!b.occupied(n));
        }
    }

    /// Liveness depends on nothing but which slots are occupied and on the
    /// containers they name.
    pub proof fn lemma_live_same(a: Store, b: Store, n: usize)
        requires
            a.wf(),
            b.wf(),
            forall|i: usize| a.occupied(i) ==> b.occupied(i) && a.parent(i) == b.parent(i),
            forall|i: usize| i < a.size() && b.occupied(i) ==> a.occupied(i),
        ensures
            a.occupied(n) ==> a.live(n) == b.live(n),
        decreases usize::MAX - a.height(n),
    {
        if a.occupied(n) {
            assert(a.node_ok(n));
            assert(b.node_ok(n));
            if let Some(p) = a.parent(n) {
                if a.occupied(p) {
                    Self::lemma_live_same(a, b, p);
                }
            }
        }
    }
}

} // verus!
