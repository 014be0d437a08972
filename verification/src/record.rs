//! Trees written down flat: one record for each node, every record behind
//! the record of its container.

use vstd::prelude::*;
use crate::plist_error::PlistError;
use crate::store::key_index;
use crate::store::Content;
use crate::store::Store;
use crate::store::Value;
use crate::Plist;
use crate::PlistType;

verus! {

/// One node of a flat tree. Of the first record, which is the root, `parent`
/// and `key` say nothing.
pub struct Record {
    /// The position of the record of the container in which the node stands.
    pub parent: usize,
    /// The key under which the node stands, where its container is a
    /// dictionary.
    pub key: String,
    /// What the node holds: a scalar, or a container without children.
    pub value: Value,
}

/// Whether the record at position `j` names the record at position `i` as
/// its container.
pub open spec fn is_kid(recs: Seq<Record>, i: int, j: int) -> bool {
    j > 0 && recs[j].parent == i
}

/// The slots of the children of record `i` among the first `upto` records,
/// in order, where `slots` gives the slot of each record.
pub open spec fn kid_slots(recs: Seq<Record>, slots: Seq<usize>, i: int, upto: int) -> Seq<usize>
    decreases upto,
{
    if upto <= 0 {
        Seq::empty()
    } else if is_kid(recs, i, upto - 1) {
        kid_slots(recs, slots, i, upto - 1).push(slots[upto - 1])
    } else {
        kid_slots(recs, slots, i, upto - 1)
    }
}

/// The keys of the children of record `i` among the first `upto` records, in
/// order.
pub open spec fn kid_keys(recs: Seq<Record>, i: int, upto: int) -> Seq<Seq<char>>
    decreases upto,
{
    if upto <= 0 {
        Seq::empty()
    } else if is_kid(recs, i, upto - 1) {
        kid_keys(recs, i, upto - 1).push(recs[upto - 1].key@)
    } else {
        kid_keys(recs, i, upto - 1)
    }
}

/// Whether record `j` can follow the records before it: it holds no
/// children of its own, and unless it is the first it names an earlier
/// record that is a container, under a key that no earlier child of that
/// container has where the container is a dictionary.
pub open spec fn valid_at(recs: Seq<Record>, j: int) -> bool {
    &&& recs[j].value@.childless()
    &&& j > 0 ==> {
        let p = recs[j].parent as int;
        &&& p < j
        &&& recs[p].value@.is_container()
        &&& recs[p].value@ is Dictionary ==> key_index(kid_keys(recs, p, j), recs[j].key@)
            is None
    }
}

/// Whether the records describe a tree.
pub open spec fn valid(recs: Seq<Record>) -> bool {
    recs.len() > 0 && forall|j: int| 0 <= j < recs.len() ==> valid_at(recs, j)
}

/// Whether the node in the slot of record `i` holds what the first `upto`
/// records say of it: the record's scalar, or the record's kind of
/// container with the children and keys that the records give it.
pub open spec fn held(store: &Store, recs: Seq<Record>, slots: Seq<usize>, i: int, upto: int) -> bool {
    &&& store.occupied(slots[i])
    &&& store.content(slots[i]) == match recs[i].value@ {
        Content::Array(_) => Content::Array(kid_slots(recs, slots, i, upto)),
        Content::Dictionary(_, _) => Content::Dictionary(
            kid_keys(recs, i, upto),
            kid_slots(recs, slots, i, upto),
        ),
        other => other,
    }
}

/// Whether the store holds the tree that `recs` describe, record by record
/// in the slots `slots`.
pub open spec fn written(store: &Store, recs: Seq<Record>, slots: Seq<usize>) -> bool {
    &&& recs.len() == slots.len()
    &&& forall|i: int| 0 <= i < recs.len() ==> held(store, recs, slots, i, recs.len() as int)
}

/// The slots from `base` on, one for each of `n` records.
pub open spec fn fresh_slots(base: int, n: int) -> Seq<usize> {
    Seq::new(n as nat, |k: int| (base + k) as usize)
}

/// A record has no child among the records up to and including itself, where
/// every record names an earlier one.
pub proof fn lemma_no_early_kids(recs: Seq<Record>, slots: Seq<usize>, i: int, upto: int)
    requires
        0 <= upto <= i + 1,
        upto <= recs.len(),
        forall|j: int| 0 < j < upto ==> (#[trigger] recs[j]).parent < j,
    ensures
        kid_slots(recs, slots, i, upto) == Seq::<usize>::empty(),
        kid_keys(recs, i, upto) == Seq::<Seq<char>>::empty(),
    decreases upto,
{
    if upto > 0 {
        lemma_no_early_kids(recs, slots, i, upto - 1);
        if upto - 1 > 0 {
            assert(recs[upto - 1].parent < upto - 1);
        }
    }
}

/// What the records say of the children of a record depends on the records
/// and slots before `upto` alone.
pub proof fn lemma_kids_same(
    a: Seq<Record>,
    sa: Seq<usize>,
    b: Seq<Record>,
    sb: Seq<usize>,
    i: int,
    upto: int,
)
    requires
        0 <= upto <= a.len(),
        upto <= b.len(),
        upto <= sa.len(),
        upto <= sb.len(),
        forall|j: int| 0 <= j < upto ==> a[j] == b[j] && sa[j] == sb[j],
    ensures
        kid_slots(a, sa, i, upto) == kid_slots(b, sb, i, upto),
        kid_keys(a, i, upto) == kid_keys(b, i, upto),
    decreases upto,
{
    if upto > 0 {
        lemma_kids_same(a, sa, b, sb, i, upto - 1);
    }
}

/// The positions of the children of record `i` among the first `upto`
/// records, in order.
pub open spec fn kid_positions(recs: Seq<Record>, i: int, upto: int) -> Seq<int>
    decreases upto,
{
    if upto <= 0 {
        Seq::empty()
    } else if is_kid(recs, i, upto - 1) {
        kid_positions(recs, i, upto - 1).push(upto - 1)
    } else {
        kid_positions(recs, i, upto - 1)
    }
}

/// The slots of the children of a record are the slots of the records at
/// the positions of its children.
pub proof fn lemma_kid_positions(recs: Seq<Record>, slots: Seq<usize>, i: int, upto: int)
    ensures
        kid_slots(recs, slots, i, upto).len() == kid_positions(recs, i, upto).len(),
        forall|x: int|
            0 <= x < kid_positions(recs, i, upto).len() ==> 0 < (#[trigger] kid_positions(
                recs,
                i,
                upto,
            )[x]) < upto && is_kid(recs, i, kid_positions(recs, i, upto)[x]) && kid_slots(
                recs,
                slots,
                i,
                upto,
            )[x] == slots[kid_positions(recs, i, upto)[x]],
    decreases upto,
{
    if upto > 0 {
        lemma_kid_positions(recs, slots, i, upto - 1);
    }
}

/// A tree that was built from the records of another tree is a copy of it:
/// where `recs` are held by `first` in the slots `slots` and by `later` in
/// the slots from `base` on, the tree below the node of each record in
/// `later` is a copy of the tree below the node of the same record in
/// `first`.
pub proof fn lemma_rebuilt_is_copy(
    first: Store,
    later: Store,
    recs: Seq<Record>,
    slots: Seq<usize>,
    base: int,
    i: int,
)
    requires
        first.wf(),
        valid(recs),
        written(&first, recs, slots),
        written(&later, recs, fresh_slots(base, recs.len() as int)),
        0 <= base,
        base + recs.len() <= later.size(),
        0 <= i < recs.len(),
    ensures
        Store::copy_of(first, slots[i], later, (base + i) as usize, base, base + recs.len()),
    decreases first.height(slots[i]),
{
    let n = recs.len() as int;
    let fresh = fresh_slots(base, n);
    later.lemma_size_bound();
    assert(held(&first, recs, slots, i, n));
    assert(held(&later, recs, fresh, i, n));
    assert(fresh[i] == (base + i) as usize);
    lemma_kid_positions(recs, slots, i, n);
    lemma_kid_positions(recs, fresh, i, n);
    let pos = kid_positions(recs, i, n);
    let x = first.content(slots[i]).children();
    let y = later.content(fresh[i]).children();
    if recs[i].value@.is_container() {
        assert(x == kid_slots(recs, slots, i, n));
        assert(y == kid_slots(recs, fresh, i, n));
        assert forall|k: int| 0 <= k < x.len() implies first.height(#[trigger] x[k])
            < first.height(slots[i]) && Store::copy_of(
            first,
            x[k],
            later,
            y[k],
            base,
            base + recs.len(),
        ) by {
            let j = pos[k];
            assert(x[k] == slots[j]);
            assert(y[k] == fresh[j]);
            first.lemma_child_lower(slots[i], k);
            lemma_rebuilt_is_copy(first, later, recs, slots, base, j);
        }
    }
}

/// Records that do not name record `i` add nothing to its children.
pub proof fn lemma_kids_skip(recs: Seq<Record>, slots: Seq<usize>, i: int, from: int, upto: int)
    requires
        0 <= from <= upto,
        forall|j: int| from <= j < upto ==> !is_kid(recs, i, j),
    ensures
        kid_slots(recs, slots, i, upto) == kid_slots(recs, slots, i, from),
        kid_keys(recs, i, upto) == kid_keys(recs, i, from),
    decreases upto - from,
{
    if upto > from {
        lemma_kids_skip(recs, slots, i, from, upto - 1);
    }
}

/// The children that the records give to a record have one key each.
pub proof fn lemma_kid_lens(recs: Seq<Record>, slots: Seq<usize>, i: int, upto: int)
    ensures
        kid_keys(recs, i, upto).len() == kid_slots(recs, slots, i, upto).len(),
    decreases upto,
{
    if upto > 0 {
        lemma_kid_lens(recs, slots, i, upto - 1);
    }
}

/// A content without children is its kind of container with nothing in it,
/// or a scalar.
pub proof fn lemma_childless_plain(c: Content)
    requires
        c.childless(),
    ensures
        c == match c {
            Content::Array(_) => Content::Array(Seq::empty()),
            Content::Dictionary(_, _) => Content::Dictionary(Seq::empty(), Seq::empty()),
            other => other,
        },
{
    match c {
        Content::Array(items) => {
            assert(items =~= Seq::empty());
        },
        Content::Dictionary(keys, nodes) => {
            assert(keys =~= Seq::empty());
            assert(nodes =~= Seq::empty());
        },
        _ => {},
    }
}

/// A value like `v`, where `v` has no children.
fn clone_childless(v: &Value) -> (r: Option<Value>)
    ensures
        r is Some == v@.childless(),
        r matches Some(w) ==> w@ == v@,
{
    match v {
        Value::Boolean(b) => Some(Value::Boolean(*b)),
        Value::UInt(u) => Some(Value::UInt(*u)),
        Value::Real(r) => Some(Value::Real(*r)),
        Value::String(s) => Some(Value::String(s.clone())),
        Value::Date(sec, usec) => Some(Value::Date(*sec, *usec)),
        Value::Data(d) => Some(Value::Data(vstd::slice::slice_to_vec(d.as_slice()))),
        Value::Key(s) => Some(Value::Key(s.clone())),
        Value::Uid(u) => Some(Value::Uid(*u)),
        Value::Null => Some(Value::Null),
        Value::Array(items) => {
            if items.len() == 0 {
                let w = Value::Array(Vec::new());
                proof {
                    assert(w@->Array_0 =~= items@);
                }
                Some(w)
            } else {
                None
            }
        },
        Value::Dictionary(keys, nodes) => {
            if keys.len() == 0 && nodes.len() == 0 {
                let k: Vec<String> = Vec::new();
                proof {
                    assert(crate::store::key_views(k@) =~= crate::store::key_views(keys@));
                }
                let w = Value::Dictionary(k, Vec::new());
                proof {
                    assert(w@->Dictionary_1 =~= nodes@);
                }
                Some(w)
            } else {
                proof {
                    if keys.len() != 0 {
                        assert(crate::store::key_views(keys@).len() != 0);
                    }
                }
                None
            }
        },
    }
}

impl Plist {
    /// Writes the tree below the node of this handle down as records, the
    /// root first and every node behind its container, the children of a
    /// container in their order. Beside the records stand the slots of
    /// their nodes.
    pub fn to_records(&self, store: &Store) -> (r: Result<(Vec<Record>, Vec<usize>), PlistError>)
        requires
            store.wf(),
        ensures
            match r {
                Ok((records, slots)) => {
                    &&& self.target(store) is Some
                    &&& valid(records@)
                    &&& slots@[0] == self.target(store)->0
                    &&& written(store, records@, slots@)
                },
                Err(e) => e == PlistError::Dealloc && self.target(store) is None,
            },
    {
        let id = match self.as_ptr(store) {
            Ok(id) => id,
            Err(e) => {
                return Err(e);
            },
        };
        proof {
            store.lemma_live_occupied(id);
        }
        let mut records: Vec<Record> = Vec::new();
        let mut slots: Vec<usize> = Vec::new();
        store.flatten_node(id, 0, String::new(), &mut records, &mut slots);
        Ok((records, slots))
    }

    /// Builds the tree that `records` describe, each node in a fresh slot:
    /// the node of the record at position `j` in the slot `j` places behind
    /// the root's. Children stand in their containers in the order of their
    /// records. Records that describe no tree give `InvalidArg`, and then no
    /// slot that was there before changes and nothing that was built stays
    /// live.
    pub fn from_records(store: &mut Store, records: &Vec<Record>) -> (r: Result<Plist, PlistError>)
        requires
            old(store).wf(),
        ensures
            final(store).wf(),
            final(store).extends(*old(store)),
            forall|x: usize| x < old(store).size() ==> final(store).live(x) == old(store).live(x),
            match r {
                Ok(h) => {
                    &&& valid(records@)
                    &&& h.is_owning()
                    &&& h.node() is Some
                    &&& h.node()->0 == old(store).size()
                    &&& h.target(final(store)) == h.node()
                    &&& final(store).parent(h.node()->0) is None
                    &&& final(store).size() == old(store).size() + records@.len()
                    &&& written(
                        final(store),
                        records@,
                        fresh_slots(old(store).size() as int, records@.len() as int),
                    )
                },
                Err(e) => {
                    &&& e == PlistError::InvalidArg
                    &&& !valid(records@)
                    &&& forall|x: usize| x >= old(store).size() ==> !final(store).live(x)
                },
            },
    {
        let n = records.len();
        let base = store.size_now();
        let ghost recs = records@;
        let ghost slots = fresh_slots(base as int, n as int);
        proof {
            store.lemma_extends_self();
            store.lemma_dead_beyond();
        }
        if n == 0 {
            return Err(PlistError::InvalidArg);
        }
        let mut j: usize = 0;
        while j < n
            invariant
                old(store).wf(),
                n == records.len(),
                n > 0,
                recs == records@,
                base == old(store).size(),
                slots == fresh_slots(base as int, n as int),
                j <= n,
                store.wf(),
                store.extends(*old(store)),
                store.size() == base + j,
                j > 0 ==> store.parent(base) is None && store.occupied(base),
                forall|i: int| 0 <= i < j ==> valid_at(recs, i),
                forall|i: int|
                    0 <= i < j ==> store.live(#[trigger] slots[i]) && store.height(slots[i]) == n
                        - i,
                forall|i: int| 0 <= i < j ==> #[trigger] held(store, recs, slots, i, j as int),
            decreases n - j,
        {
            let ghost before = *store;
            let cur = store.size_now();
            let rec = &records[j];
            let value = clone_childless(&rec.value);
            let mut good = value.is_some();
            if good && j > 0 {
                if rec.parent >= j {
                    good = false;
                } else {
                    let c = cur - (j - rec.parent);
                    proof {
                        assert(slots[rec.parent as int] == c);
                        assert(held(store, recs, slots, rec.parent as int, j as int));
                        store.lemma_live_occupied(c);
                    }
                    let t = store.kind(c);
                    if t == PlistType::Dictionary {
                        if store.find_key(c, &rec.key).is_some() {
                            good = false;
                        }
                    } else if t != PlistType::Array {
                        good = false;
                    }
                }
            }
            if !good {
                proof {
                    assert(!valid_at(recs, j as int));
                }
                if j > 0 {
                    store.free_root(base);
                    proof {
                        store.lemma_dead_beyond();
                        assert(slots[0] == base);
                        assert forall|x: usize| x >= old(store).size() implies !store.live(x) by {
                            if x < before.size() && before.live(x) {
                                assert(slots[x - base] == x);
                                Self::lemma_built_below(before, recs, slots, j as int, x - base);
                            }
                        }
                        assert forall|x: usize| x < old(store).size() implies store.live(x) == old(store).live(x) by {
                            Store::lemma_live_extends(*old(store), *store, x);
                        }
                    }
                } else {
                    proof {
                        store.lemma_dead_beyond();
                        assert forall|x: usize| x < old(store).size() implies store.live(x) == old(store).live(x) by {
                            Store::lemma_live_extends(*old(store), *store, x);
                        }
                    }
                }
                return Err(PlistError::InvalidArg);
            }
            proof {
                if j > 0 {
                    let p = rec.parent as int;
                    assert(slots[p] == base + p);
                    assert(held(store, recs, slots, p, j as int));
                    lemma_kid_lens(recs, slots, p, j as int);
                }
                assert(valid_at(recs, j as int));
                assert forall|i: int| 0 < i < j + 1 implies (#[trigger] recs[i]).parent < i by {
                    assert(valid_at(recs, i));
                }
            }
            let id = store.add_root(value.unwrap(), n - j);
            let ghost mid = *store;
            proof {
                assert(slots[j as int] == id);
                lemma_no_early_kids(recs, slots, j as int, j + 1);
                assert forall|i: int| 0 <= i < j implies store.live(#[trigger] slots[i])
                    && store.height(slots[i]) == n - i && held(store, recs, slots, i, j as int) by {
                    assert(before.live(slots[i]));
                    before.lemma_live_occupied(slots[i]);
                    assert(held(&before, recs, slots, i, j as int));
                }
            }
            if j > 0 {
                let c = cur - (j - rec.parent);
                proof {
                    assert(slots[rec.parent as int] == c);
                    store.lemma_live_occupied(c);
                    assert(held(store, recs, slots, rec.parent as int, j as int));
                }
                let end = store.child_count(c);
                let key = rec.key.clone();
                store.adopt(c, id, end, key);
                proof {
                    let p = rec.parent as int;
                    lemma_kid_lens(recs, slots, p, j as int);
                    lemma_childless_plain(recs[j as int].value@);
                    assert(kid_slots(recs, slots, p, j as int).insert(end as int, id)
                        =~= kid_slots(recs, slots, p, j + 1));
                    assert(kid_keys(recs, p, j as int).insert(end as int, rec.key@) =~= kid_keys(
                        recs,
                        p,
                        j + 1,
                    ));
                    assert forall|i: int| 0 <= i < j + 1 implies store.live(#[trigger] slots[i])
                        && store.height(slots[i]) == n - i by {
                        assert(mid.live(slots[i]));
                        mid.lemma_live_occupied(slots[i]);
                    }
                    assert forall|i: int| 0 <= i < j + 1 implies #[trigger] held(
                        store,
                        recs,
                        slots,
                        i,
                        j + 1,
                    ) by {
                        if i < j {
                            assert(held(&mid, recs, slots, i, j as int));
                        }
                        if i != p && i != j {
                            assert(store.content(slots[i]) == mid.content(slots[i]));
                        }
                    }
                }
            } else {
                proof {
                    lemma_childless_plain(recs[0].value@);
                    assert(held(store, recs, slots, 0, 1));
                }
            }
            j = j + 1;
        }
        proof {
            assert forall|x: usize| x < old(store).size() implies store.live(x) == old(store).live(
                x,
            ) by {
                Store::lemma_live_extends(*old(store), *store, x);
            }
            assert(slots[0] == base);
            assert(store.live(slots[0]));
        }
        Ok(Plist::new(base))
    }

    /// Every node that was built for the first `upto` records stands below
    /// the node of the first record.
    proof fn lemma_built_below(store: Store, recs: Seq<Record>, slots: Seq<usize>, upto: int, k: int)
        requires
            store.wf(),
            0 <= k < upto <= recs.len(),
            recs.len() == slots.len(),
            forall|i: int| 0 <= i < upto ==> valid_at(recs, i),
            forall|i: int| 0 <= i < upto ==> store.live(#[trigger] slots[i]),
            forall|i: int| 0 <= i < upto ==> #[trigger] held(&store, recs, slots, i, upto),
        ensures
            store.reaches(slots[k], slots[0]),
        decreases k,
    {
        if k > 0 {
            let p = recs[k].parent as int;
            assert(valid_at(recs, k));
            Self::lemma_built_below(store, recs, slots, upto, p);
            assert(held(&store, recs, slots, p, upto));
            lemma_kid_listed(recs, slots, p, upto, k);
            let kids = kid_slots(recs, slots, p, upto);
            let at = choose|at: int| 0 <= at < kids.len() && kids[at] == slots[k];
            assert(store.content(slots[p]).children() == kids);
            store.lemma_child_live(slots[p], at);
            store.lemma_reaches_parent(slots[k], slots[p]);
            store.lemma_reaches_trans(slots[k], slots[p], slots[0]);
        } else {
            store.lemma_reaches_self(slots[0]);
        }
    }
}

/// The slot of every record that names record `i` stands among the children
/// that the records give to `i`.
pub proof fn lemma_kid_listed(recs: Seq<Record>, slots: Seq<usize>, i: int, upto: int, k: int)
    requires
        0 <= k < upto,
        is_kid(recs, i, k),
    ensures
        exists|at: int|
            0 <= at < kid_slots(recs, slots, i, upto).len() && kid_slots(recs, slots, i, upto)[at]
                == slots[k],
    decreases upto,
{
    let kids = kid_slots(recs, slots, i, upto);
    if k == upto - 1 {
        assert(kids[kids.len() - 1] == slots[k]);
    } else {
        lemma_kid_listed(recs, slots, i, upto - 1, k);
        let prev = kid_slots(recs, slots, i, upto - 1);
        let at = choose|at: int| 0 <= at < prev.len() && prev[at] == slots[k];
        assert(kids[at] == slots[k]);
    }
}

} // verus!
