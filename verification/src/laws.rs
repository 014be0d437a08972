//! What holds across the operations of the library.

use vstd::prelude::*;
use crate::array::PlistArray;
use crate::dict::PlistDict;
use crate::store::distinct_keys;
use crate::store::key_index;
use crate::store::Store;
use crate::Plist;
use crate::PlistType;

verus! {

/// A node that was handed to a container is freed with the container's tree,
/// once and by the owner of that tree alone. Let the handle `owner` own the
/// live root of a tree, let the live container `c` stand in that tree, and
/// let `item` be a view of a live node `n` that stands in `c`, as it is after
/// a transfer. Then `item` reads its node, and releasing `item` frees
/// nothing. In the store `after`, as the owner's release leaves it, `item`
/// reaches nothing any more, and neither `item` nor `owner` frees anything
/// again.
pub proof fn lemma_freed_once(
    before: Store,
    after: Store,
    owner: Plist,
    item: Plist,
    c: usize,
    n: usize,
)
    requires
        before.wf(),
        owner.frees(&before),
        before.live(c),
        before.reaches(c, owner.node()->0),
        before.live(n),
        before.parent(n) == Some(c),
        item.is_view(),
        item.node() == Some(n),
        owner.released(&before, &after),
    ensures
        item.target(&before) == Some(n),
        !item.frees(&before),
        item.target(&after) is None,
        !item.frees(&after),
        !owner.frees(&after),
{
    let root = owner.node()->0;
    before.lemma_reaches_parent(n, c);
    before.lemma_reaches_trans(n, c, root);
    before.lemma_reaches_self(root);
}

/// A container that stands in no container itself takes every live root but
/// itself, unless that root has the highest rank there is: for such a pair
/// no transfer answers with an error.
pub proof fn lemma_root_takes(store: Store, item: Plist, c: usize)
    requires
        store.occupied(c),
        store.parent(c) is None,
        item.target(&store) is Some,
        item.target(&store)->0 != c,
        store.parent(item.target(&store)->0) is None,
        !store.top_ranked(item.target(&store)->0),
    ensures
        item.transfer_error(&store, c) is None,
{
    store.lemma_root_room(c, item.target(&store)->0);
}

/// After an append the array is one longer, and the new node is read at the
/// position that was the length.
pub proof fn lemma_append_shape(a: PlistArray, before: Store, after: Store, v: usize)
    requires
        a.items(&after) == a.items(&before).push(v),
    ensures
        a.items(&after).len() == a.items(&before).len() + 1,
        a.items(&after)[a.items(&before).len() as int] == v,
        forall|j: int| 0 <= j < a.items(&before).len() ==> a.items(&after)[j] == a.items(&before)[j],
{
}

/// After an insert at position `i` the array is one longer, the new node is
/// read at `i`, every node before `i` is read where it was, and every node
/// from `i` on is read one position later.
pub proof fn lemma_insert_shape(a: PlistArray, before: Store, after: Store, i: int, v: usize)
    requires
        0 <= i <= a.items(&before).len(),
        a.items(&after) == a.items(&before).insert(i, v),
    ensures
        a.items(&after).len() == a.items(&before).len() + 1,
        a.items(&after)[i] == v,
        forall|j: int| 0 <= j < i ==> a.items(&after)[j] == a.items(&before)[j],
        forall|j: int|
            i <= j < a.items(&before).len() ==> a.items(&after)[j + 1] == a.items(&before)[j],
{
}

/// After a remove at position `i` the array is one shorter, every node before
/// `i` is read where it was, and every node behind `i` is read one position
/// earlier.
pub proof fn lemma_remove_shape(a: PlistArray, before: Store, after: Store, i: int)
    requires
        0 <= i < a.items(&before).len(),
        a.items(&after) == a.items(&before).remove(i),
    ensures
        a.items(&after).len() == a.items(&before).len() - 1,
        forall|j: int| 0 <= j < i ==> a.items(&after)[j] == a.items(&before)[j],
        forall|j: int|
            i <= j < a.items(&after).len() ==> a.items(&after)[j] == a.items(&before)[j + 1],
{
}

/// After a node was put under a key, the key reads that node, every other
/// key reads what it read before, and the dictionary is one longer exactly
/// if the key was new.
pub proof fn lemma_set_then_get(
    d: PlistDict,
    before: Store,
    after: Store,
    key: Seq<char>,
    v: usize,
    other: Seq<char>,
)
    requires
        distinct_keys(d.keys(&before)),
        d.keys(&before).len() == d.nodes(&before).len(),
        match key_index(d.keys(&before), key) {
            Some(i) => d.keys(&after) == d.keys(&before) && d.nodes(&after) == d.nodes(
                &before,
            ).update(i, v),
            None => d.keys(&after) == d.keys(&before).push(key) && d.nodes(&after) == d.nodes(
                &before,
            ).push(v),
        },
        other != key,
    ensures
        d.lookup(&after, key) == Some(v),
        d.lookup(&after, other) == d.lookup(&before, other),
        d.nodes(&after).len() == d.nodes(&before).len() + (if key_index(d.keys(&before), key)
            is Some {
            0int
        } else {
            1int
        }),
{
    let keys = d.keys(&before);
    let keys2 = d.keys(&after);
    match key_index(keys, key) {
        Some(i) => {},
        None => {
            assert forall|i: int, j: int|
                0 <= i < keys2.len() && 0 <= j < keys2.len() && i != j implies #[trigger] keys2[i]
                != #[trigger] keys2[j] by {
                if i < keys.len() {
                    assert(keys2[i] == keys[i]);
                }
                if j < keys.len() {
                    assert(keys2[j] == keys[j]);
                }
            }
            Store::lemma_key_at(keys2, key, keys.len() as int);
            if key_index(keys, other) is Some {
                let oi = key_index(keys, other)->0;
                assert(keys2[oi] == keys[oi]);
                Store::lemma_key_at(keys2, other, oi);
            } else {
                assert forall|x: int| 0 <= x < keys2.len() implies #[trigger] keys2[x] != other by {
                    if x < keys.len() {
                        assert(keys2[x] == keys[x]);
                    }
                }
            }
        },
    }
}

/// After the entry under a key was taken out, the key reads nothing, every
/// other key reads what it read before, and the dictionary is one shorter.
pub proof fn lemma_remove_then_get(
    d: PlistDict,
    before: Store,
    after: Store,
    key: Seq<char>,
    other: Seq<char>,
)
    requires
        distinct_keys(d.keys(&before)),
        d.keys(&before).len() == d.nodes(&before).len(),
        key_index(d.keys(&before), key) matches Some(i) && d.keys(&after) == d.keys(
            &before,
        ).remove(i) && d.nodes(&after) == d.nodes(&before).remove(i),
        other != key,
    ensures
        d.lookup(&after, key) is None,
        d.lookup(&after, other) == d.lookup(&before, other),
        d.nodes(&after).len() == d.nodes(&before).len() - 1,
{
    let keys = d.keys(&before);
    let keys2 = d.keys(&after);
    let i = key_index(keys, key)->0;
    assert forall|x: int| 0 <= x < keys2.len() implies #[trigger] keys2[x] != key by {
        let xx = if x < i { x } else { x + 1 };
        assert(keys2[x] == keys[xx]);
    }
    assert forall|x: int, y: int|
        0 <= x < keys2.len() && 0 <= y < keys2.len() && x != y implies #[trigger] keys2[x]
        != #[trigger] keys2[y] by {
        let xx = if x < i { x } else { x + 1 };
        let yy = if y < i { y } else { y + 1 };
        assert(keys2[x] == keys[xx]);
        assert(keys2[y] == keys[yy]);
    }
    if key_index(keys, other) is Some {
        let oi = key_index(keys, other)->0;
        let o2 = if oi < i { oi } else { oi - 1 };
        assert(keys2[o2] == keys[oi]);
        Store::lemma_key_at(keys2, other, o2);
    } else {
        assert forall|x: int| 0 <= x < keys2.len() implies #[trigger] keys2[x] != other by {
            let xx = if x < i { x } else { x + 1 };
            assert(keys2[x] == keys[xx]);
        }
    }
}

/// A handle is read by the accessor of its node's kind and by no other: each
/// reading gives a value exactly when the handle reaches a live node of that
/// kind, and a handle that reaches no live node is read by none.
pub proof fn lemma_read_by_kind(h: Plist, store: Store)
    ensures
        h.string_at(&store) is Some <==> h.reading(&store) is Some && h.reading(&store)->0.tag()
            == PlistType::String,
        h.bool_at(&store) is Some <==> h.reading(&store) is Some && h.reading(&store)->0.tag()
            == PlistType::Boolean,
        h.key_at(&store) is Some <==> h.reading(&store) is Some && h.reading(&store)->0.tag()
            == PlistType::Key,
        h.uint_at(&store) is Some <==> h.reading(&store) is Some && h.reading(&store)->0.tag()
            == PlistType::UInt,
        h.real_at(&store) is Some <==> h.reading(&store) is Some && h.reading(&store)->0.tag()
            == PlistType::Real,
        h.data_at(&store) is Some <==> h.reading(&store) is Some && h.reading(&store)->0.tag()
            == PlistType::Data,
        h.uid_at(&store) is Some <==> h.reading(&store) is Some && h.reading(&store)->0.tag()
            == PlistType::UID,
        h.date_at(&store) is Some <==> h.reading(&store) is Some && h.reading(&store)->0.tag()
            == PlistType::Date,
{
}

} // verus!
