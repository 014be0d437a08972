//! Scalars: making them, reading them, and writing them in place.

use vstd::prelude::*;
use vstd::slice::slice_to_vec;
use crate::plist_error::PlistError;
use crate::store::Content;
use crate::store::Store;
use crate::store::Value;
use crate::Plist;
use crate::PlistType;

verus! {

/// What holds after `r` was made in `before`, giving `after`: `r` owns a new
/// live root with the content `content`, in a slot that was never used, and
/// every other slot is as it was.
pub open spec fn created(before: &Store, after: &Store, r: Plist, content: Content) -> bool {
    let id = r.node()->0;
    &&& after.wf()
    &&& after.size() == before.size() + 1
    &&& after.extends(*before)
    &&& r.is_owning()
    &&& r.node() is Some
    &&& id == before.size()
    &&& r.target(after) == Some(id)
    &&& !before.occupied(id)
    &&& after.content(id) == content
    &&& after.parent(id) is None
    &&& !after.top_ranked(id)
    &&& after.same_but(*before, id)
    &&& forall|n: usize| n != id ==> after.live(n) == before.live(n)
}

/// Why the node of `h` cannot take a new scalar value: the handle reaches no
/// live node, or the node is a container.
pub open spec fn write_error(h: Plist, store: &Store) -> Option<PlistError> {
    match h.reading(store) {
        None => Some(PlistError::Dealloc),
        Some(c) => if c.is_container() {
            Some(PlistError::InvalidArg)
        } else {
            None
        },
    }
}

/// What holds after the node of `h` was asked to take the scalar content
/// `content`: on success the node holds it, in the same slot and the same
/// place of its tree, and nothing else changed; on an error nothing changed.
pub open spec fn written(
    before: &Store,
    after: &Store,
    h: Plist,
    content: Content,
    r: Result<(), PlistError>,
) -> bool {
    &&& after.wf()
    &&& r == match write_error(h, before) {
        Some(e) => Err::<(), PlistError>(e),
        None => Ok::<(), PlistError>(()),
    }
    &&& r is Err ==> after.unchanged(*before)
    &&& r is Ok ==> {
        let id = h.target(before)->0;
        &&& after.size() == before.size()
        &&& h.target(after) == Some(id)
        &&& after.content(id) == content
        &&& after.parent(id) == before.parent(id)
        &&& after.same_but(*before, id)
        &&& forall|n: usize| after.live(n) == before.live(n)
    }
}

/// Writing a scalar of type `T` into a node.
pub trait Setter<T> {
    /// The content that a node holds once `value` was written into it.
    spec fn content_of(value: T) -> Content;

    /// What holds after the node was asked to take `content`.
    spec fn was_written(
        &self,
        before: &Store,
        after: &Store,
        content: Content,
        r: Result<(), PlistError>,
    ) -> bool;

    /// Makes the node hold `value`, and be of its kind.
    fn set(&self, store: &mut Store, value: T) -> (r: Result<(), PlistError>)
        requires
            old(store).wf(),
        ensures
            self.was_written(old(store), final(store), Self::content_of(value), r),
    ;
}

impl Setter<String> for Plist {
    open spec fn content_of(value: String) -> Content {
        Content::String(value@)
    }

    open spec fn was_written(
        &self,
        before: &Store,
        after: &Store,
        content: Content,
        r: Result<(), PlistError>,
    ) -> bool {
        written(before, after, *self, content, r)
    }

    fn set(&self, store: &mut Store, value: String) -> (r: Result<(), PlistError>) {
        self.set_string(store, value.as_str())
    }
}

impl<'a> Setter<&'a str> for Plist {
    open spec fn content_of(value: &'a str) -> Content {
        Content::String(value@)
    }

    open spec fn was_written(
        &self,
        before: &Store,
        after: &Store,
        content: Content,
        r: Result<(), PlistError>,
    ) -> bool {
        written(before, after, *self, content, r)
    }

    fn set(&self, store: &mut Store, value: &'a str) -> (r: Result<(), PlistError>) {
        self.set_string(store, value)
    }
}

impl Setter<bool> for Plist {
    open spec fn content_of(value: bool) -> Content {
        Content::Boolean(value)
    }

    open spec fn was_written(
        &self,
        before: &Store,
        after: &Store,
        content: Content,
        r: Result<(), PlistError>,
    ) -> bool {
        written(before, after, *self, content, r)
    }

    fn set(&self, store: &mut Store, value: bool) -> (r: Result<(), PlistError>) {
        self.set_bool(store, value)
    }
}

impl Setter<u64> for Plist {
    open spec fn content_of(value: u64) -> Content {
        Content::UInt(value)
    }

    open spec fn was_written(
        &self,
        before: &Store,
        after: &Store,
        content: Content,
        r: Result<(), PlistError>,
    ) -> bool {
        written(before, after, *self, content, r)
    }

    fn set(&self, store: &mut Store, value: u64) -> (r: Result<(), PlistError>) {
        self.set_uint(store, value)
    }
}

impl<'a> Setter<&'a [i8]> for Plist {
    open spec fn content_of(value: &'a [i8]) -> Content {
        Content::Data(value@)
    }

    open spec fn was_written(
        &self,
        before: &Store,
        after: &Store,
        content: Content,
        r: Result<(), PlistError>,
    ) -> bool {
        written(before, after, *self, content, r)
    }

    fn set(&self, store: &mut Store, value: &'a [i8]) -> (r: Result<(), PlistError>) {
        self.set_data(store, value)
    }
}

impl Plist {
    /// What reading this handle as a string gives.
    pub open spec fn string_at(&self, store: &Store) -> Option<Seq<char>> {
        match self.reading(store) {
            Some(Content::String(s)) => Some(s),
            _ => None,
        }
    }

    /// What reading this handle as a boolean gives.
    pub open spec fn bool_at(&self, store: &Store) -> Option<bool> {
        match self.reading(store) {
            Some(Content::Boolean(b)) => Some(b),
            _ => None,
        }
    }

    /// What reading this handle as a key gives.
    pub open spec fn key_at(&self, store: &Store) -> Option<Seq<char>> {
        match self.reading(store) {
            Some(Content::Key(s)) => Some(s),
            _ => None,
        }
    }

    /// What reading this handle as an unsigned integer gives.
    pub open spec fn uint_at(&self, store: &Store) -> Option<u64> {
        match self.reading(store) {
            Some(Content::UInt(u)) => Some(u),
            _ => None,
        }
    }

    /// What reading this handle as a real number gives: its bit pattern.
    pub open spec fn real_at(&self, store: &Store) -> Option<u64> {
        match self.reading(store) {
            Some(Content::Real(bits)) => Some(bits),
            _ => None,
        }
    }

    /// What reading this handle as a binary blob gives.
    pub open spec fn data_at(&self, store: &Store) -> Option<Seq<i8>> {
        match self.reading(store) {
            Some(Content::Data(d)) => Some(d),
            _ => None,
        }
    }

    /// What reading this handle as a unique id gives.
    pub open spec fn uid_at(&self, store: &Store) -> Option<u64> {
        match self.reading(store) {
            Some(Content::Uid(u)) => Some(u),
            _ => None,
        }
    }

    /// What reading this handle as a date gives: seconds and microseconds.
    pub open spec fn date_at(&self, store: &Store) -> Option<(i32, i32)> {
        match self.reading(store) {
            Some(Content::Date(sec, usec)) => Some((sec, usec)),
            _ => None,
        }
    }

    /// Makes the root of a new tree from a childless value.
    pub(crate) fn plant(store: &mut Store, value: Value) -> (r: Plist)
        requires
            old(store).wf(),
            value@.childless(),
        ensures
            created(old(store), final(store), r, value@),
    {
        let id = store.add_root(value, 0);
        Plist::new(id)
    }

    /// Writes a scalar value into the node of this handle.
    pub(crate) fn write(&self, store: &mut Store, value: Value) -> (r: Result<(), PlistError>)
        requires
            old(store).wf(),
            !value@.is_container(),
        ensures
            written(old(store), final(store), *self, value@, r),
    {
        let id = match self.as_ptr(store) {
            Ok(id) => id,
            Err(e) => {
                return Err(e);
            },
        };
        proof {
            store.lemma_live_occupied(id);
        }
        let t = store.kind(id);
        if t == PlistType::Array || t == PlistType::Dictionary {
            return Err(PlistError::InvalidArg);
        }
        store.put(id, value);
        Ok(())
    }

    /// A new string.
    pub fn from_string(store: &mut Store, string: &str) -> (r: Plist)
        requires
            old(store).wf(),
        ensures
            created(old(store), final(store), r, Content::String(string@)),
    {
        Self::plant(store, Value::String(string.to_owned()))
    }

    /// A new boolean.
    pub fn from_bool(store: &mut Store, boolean: bool) -> (r: Plist)
        requires
            old(store).wf(),
        ensures
            created(old(store), final(store), r, Content::Boolean(boolean)),
    {
        Self::plant(store, Value::Boolean(boolean))
    }

    /// A new unsigned integer.
    pub fn from_uint(store: &mut Store, uint: u64) -> (r: Plist)
        requires
            old(store).wf(),
        ensures
            created(old(store), final(store), r, Content::UInt(uint)),
    {
        Self::plant(store, Value::UInt(uint))
    }

    /// A new real number, given as its IEEE 754 bit pattern.
    pub fn from_real(store: &mut Store, bits: u64) -> (r: Plist)
        requires
            old(store).wf(),
        ensures
            created(old(store), final(store), r, Content::Real(bits)),
    {
        Self::plant(store, Value::Real(bits))
    }

    /// A new binary blob.
    pub fn from_data(store: &mut Store, data: &[i8]) -> (r: Plist)
        requires
            old(store).wf(),
        ensures
            created(old(store), final(store), r, Content::Data(data@)),
    {
        Self::plant(store, Value::Data(slice_to_vec(data)))
    }

    /// A new date: seconds and microseconds.
    pub fn from_date(store: &mut Store, sec: i32, usec: i32) -> (r: Plist)
        requires
            old(store).wf(),
        ensures
            created(old(store), final(store), r, Content::Date(sec, usec)),
    {
        Self::plant(store, Value::Date(sec, usec))
    }

    /// A new unique id.
    pub fn from_uid(store: &mut Store, uid: u64) -> (r: Plist)
        requires
            old(store).wf(),
        ensures
            created(old(store), final(store), r, Content::Uid(uid)),
    {
        Self::plant(store, Value::Uid(uid))
    }

    /// A new null.
    pub fn null(store: &mut Store) -> (r: Plist)
        requires
            old(store).wf(),
        ensures
            created(old(store), final(store), r, Content::Null),
    {
        Self::plant(store, Value::Null)
    }

    /// A new array without elements.
    pub fn new_array(store: &mut Store) -> (r: Plist)
        requires
            old(store).wf(),
        ensures
            created(old(store), final(store), r, Content::Array(Seq::empty())),
    {
        Self::plant(store, Value::Array(Vec::new()))
    }

    /// A new dictionary without entries.
    pub fn new_dict(store: &mut Store) -> (r: Plist)
        requires
            old(store).wf(),
        ensures
            created(old(store), final(store), r, Content::Dictionary(Seq::empty(), Seq::empty())),
    {
        let keys: Vec<String> = Vec::new();
        proof {
            assert(crate::store::key_views(keys@) =~= Seq::empty());
        }
        Self::plant(store, Value::Dictionary(keys, Vec::new()))
    }

    /// The string of a live string node; nothing for any other handle.
    pub fn as_str(&self, store: &Store) -> (r: Option<String>)
        requires
            store.wf(),
        ensures
            match self.string_at(store) {
                Some(s) => r is Some && r->0@ == s,
                None => r is None,
            },
    {
        match self.as_ptr(store) {
            Ok(id) => {
                proof {
                    store.lemma_live_occupied(id);
                }
                match store.value_ref(id) {
                    Value::String(s) => Some(s.clone()),
                    _ => None,
                }
            },
            Err(_) => None,
        }
    }

    /// The value of a live boolean node; nothing for any other handle.
    pub fn as_bool(&self, store: &Store) -> (r: Option<bool>)
        requires
            store.wf(),
        ensures
            r == self.bool_at(store),
    {
        match self.as_ptr(store) {
            Ok(id) => {
                proof {
                    store.lemma_live_occupied(id);
                }
                match store.value_ref(id) {
                    Value::Boolean(b) => Some(*b),
                    _ => None,
                }
            },
            Err(_) => None,
        }
    }

    /// The name of a live key node; nothing for any other handle.
    pub fn as_key(&self, store: &Store) -> (r: Option<String>)
        requires
            store.wf(),
        ensures
            match self.key_at(store) {
                Some(s) => r is Some && r->0@ == s,
                None => r is None,
            },
    {
        match self.as_ptr(store) {
            Ok(id) => {
                proof {
                    store.lemma_live_occupied(id);
                }
                match store.value_ref(id) {
                    Value::Key(s) => Some(s.clone()),
                    _ => None,
                }
            },
            Err(_) => None,
        }
    }

    /// The value of a live unsigned integer node; nothing for any other
    /// handle. The type tag is checked before the value is read.
    pub fn as_uint(&self, store: &Store) -> (r: Option<u64>)
        requires
            store.wf(),
        ensures
            r == self.uint_at(store),
    {
        if self.plist_type(store) != PlistType::UInt {
            return None;
        }
        match self.as_ptr(store) {
            Ok(id) => {
                proof {
                    store.lemma_live_occupied(id);
                }
                match store.value_ref(id) {
                    Value::UInt(u) => Some(*u),
                    _ => Some(0),
                }
            },
            Err(_) => None,
        }
    }

    /// The IEEE 754 bit pattern of a live real node; nothing for any other
    /// handle. The type tag is checked before the value is read.
    pub fn as_real(&self, store: &Store) -> (r: Option<u64>)
        requires
            store.wf(),
        ensures
            r == self.real_at(store),
    {
        if self.plist_type(store) != PlistType::Real {
            return None;
        }
        match self.as_ptr(store) {
            Ok(id) => {
                proof {
                    store.lemma_live_occupied(id);
                }
                match store.value_ref(id) {
                    Value::Real(bits) => Some(*bits),
                    _ => Some(0),
                }
            },
            Err(_) => None,
        }
    }

    /// The bytes of a live binary blob; nothing for any other handle.
    pub fn as_data(&self, store: &Store) -> (r: Option<Vec<i8>>)
        requires
            store.wf(),
        ensures
            match self.data_at(store) {
                Some(d) => r is Some && r->0@ == d,
                None => r is None,
            },
    {
        match self.as_ptr(store) {
            Ok(id) => {
                proof {
                    store.lemma_live_occupied(id);
                }
                match store.value_ref(id) {
                    Value::Data(d) => Some(slice_to_vec(d.as_slice())),
                    _ => None,
                }
            },
            Err(_) => None,
        }
    }

    /// The value of a live unique-id node; nothing for any other handle. The
    /// type tag is checked before the value is read.
    pub fn as_uid(&self, store: &Store) -> (r: Option<u64>)
        requires
            store.wf(),
        ensures
            r == self.uid_at(store),
    {
        if self.plist_type(store) != PlistType::UID {
            return None;
        }
        match self.as_ptr(store) {
            Ok(id) => {
                proof {
                    store.lemma_live_occupied(id);
                }
                match store.value_ref(id) {
                    Value::Uid(u) => Some(*u),
                    _ => Some(0),
                }
            },
            Err(_) => None,
        }
    }

    /// The seconds and microseconds of a live date node; nothing for any
    /// other handle.
    pub fn as_date(&self, store: &Store) -> (r: Option<(i32, i32)>)
        requires
            store.wf(),
        ensures
            r == self.date_at(store),
    {
        match self.as_ptr(store) {
            Ok(id) => {
                proof {
                    store.lemma_live_occupied(id);
                }
                match store.value_ref(id) {
                    Value::Date(sec, usec) => Some((*sec, *usec)),
                    _ => None,
                }
            },
            Err(_) => None,
        }
    }

    /// Makes the node a string with the given characters.
    pub fn set_string(&self, store: &mut Store, string: &str) -> (r: Result<(), PlistError>)
        requires
            old(store).wf(),
        ensures
            written(old(store), final(store), *self, Content::String(string@), r),
    {
        self.write(store, Value::String(string.to_owned()))
    }

    /// Makes the node a boolean with the given value.
    pub fn set_bool(&self, store: &mut Store, boolean: bool) -> (r: Result<(), PlistError>)
        requires
            old(store).wf(),
        ensures
            written(old(store), final(store), *self, Content::Boolean(boolean), r),
    {
        self.write(store, Value::Boolean(boolean))
    }

    /// Makes the node an unsigned integer with the given value.
    pub fn set_uint(&self, store: &mut Store, uint: u64) -> (r: Result<(), PlistError>)
        requires
            old(store).wf(),
        ensures
            written(old(store), final(store), *self, Content::UInt(uint), r),
    {
        self.write(store, Value::UInt(uint))
    }

    /// Makes the node a real number with the given IEEE 754 bit pattern.
    pub fn set_real(&self, store: &mut Store, bits: u64) -> (r: Result<(), PlistError>)
        requires
            old(store).wf(),
        ensures
            written(old(store), final(store), *self, Content::Real(bits), r),
    {
        self.write(store, Value::Real(bits))
    }

    /// Makes the node a binary blob with the given bytes.
    pub fn set_data(&self, store: &mut Store, data: &[i8]) -> (r: Result<(), PlistError>)
        requires
            old(store).wf(),
        ensures
            written(old(store), final(store), *self, Content::Data(data@), r),
    {
        self.write(store, Value::Data(slice_to_vec(data)))
    }

    /// Makes the node a key with the given name.
    pub fn set_key(&self, store: &mut Store, string: &str) -> (r: Result<(), PlistError>)
        requires
            old(store).wf(),
        ensures
            written(old(store), final(store), *self, Content::Key(string@), r),
    {
        self.write(store, Value::Key(string.to_owned()))
    }

    /// Makes the node a date with the given seconds and microseconds.
    pub fn set_date(&self, store: &mut Store, sec: i32, usec: i32) -> (r: Result<(), PlistError>)
        requires
            old(store).wf(),
        ensures
            written(old(store), final(store), *self, Content::Date(sec, usec), r),
    {
        self.write(store, Value::Date(sec, usec))
    }

    /// Makes the node a unique id with the given value.
    pub fn set_uid(&self, store: &mut Store, uid: u64) -> (r: Result<(), PlistError>)
        requires
            old(store).wf(),
        ensures
            written(old(store), final(store), *self, Content::Uid(uid), r),
    {
        self.write(store, Value::Uid(uid))
    }
}

} // verus!
