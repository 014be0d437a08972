use plist_tree::plist_error::PlistError;
use plist_tree::plist_node_type::PlistNodeType;
use plist_tree::store::Store;
use plist_tree::Plist;
use plist_tree::PlistType;

#[test]
fn handle_states() {
    let mut store = Store::new();
    let owning = Plist::from_uint(&mut store, 3);
    let slot = owning.as_ptr(&store).unwrap();
    assert!(owning.owns());
    let view = Plist::new_with_weak(slot);
    assert!(!view.owns());
    assert_eq!(view.as_ptr(&store), Ok(slot));
    let mut h = Plist::new(slot);
    assert!(h.owns());
    h.replace_weak();
    assert!(!h.owns());
    assert_eq!(h.as_ptr(&store), Ok(slot));
    h.replace_weak();
    assert!(!h.owns());
    assert_eq!(h.as_ptr(&store), Ok(slot));
    let nowhere = Plist::new(slot + 1);
    assert_eq!(nowhere.as_ptr(&store), Err(PlistError::Dealloc));
    assert_eq!(nowhere.plist_type(&store), PlistType::NoNode);
}

#[test]
fn as_ptr_of_a_view_fails_once_the_tree_is_freed() {
    let mut store = Store::new();
    let owner = Plist::from_uint(&mut store, 7);
    let slot = owner.as_ptr(&store).unwrap();
    let view = Plist::new_with_weak(slot);
    assert_eq!(view.as_ptr(&store), Ok(slot));
    owner.release(&mut store);
    assert_eq!(view.as_ptr(&store), Err(PlistError::Dealloc));
    assert_eq!(view.plist_type(&store), PlistType::NoNode);
    assert_eq!(Plist::new(slot).as_ptr(&store), Err(PlistError::Dealloc));
}

#[test]
fn transferred_node_is_freed_once_with_its_container() {
    let mut store = Store::new();
    let array = Plist::new_array(&mut store).array(&mut store).unwrap();
    let mut item = Plist::from_string(&mut store, "kept");
    assert!(item.owns());
    array.append(&mut store, &mut item).unwrap();
    assert!(!item.owns());
    // readable through the handle, and the same node as the array reports
    assert_eq!(item.as_str(&store).unwrap(), "kept");
    assert_eq!(array.get(&store, 0).unwrap().as_ptr(&store), item.as_ptr(&store));
    assert_eq!(array.get(&store, 0).unwrap().plist_type(&store), item.plist_type(&store));
    // releasing the view frees nothing
    let again = Plist::new_with_weak(item.as_ptr(&store).unwrap());
    again.release(&mut store);
    assert_eq!(item.as_str(&store).unwrap(), "kept");
    // releasing the owner frees the whole tree
    let other = Plist::from_uint(&mut store, 1);
    let owner = array.into_plist();
    let root = owner.as_ptr(&store).unwrap();
    owner.release(&mut store);
    assert_eq!(item.as_ptr(&store), Err(PlistError::Dealloc));
    assert_eq!(item.as_str(&store), None);
    assert_eq!(item.plist_type(&store), PlistType::NoNode);
    assert!(!store.is_live(root));
    // a second release of the same slot frees nothing else
    Plist::new(root).release(&mut store);
    item.release(&mut store);
    assert_eq!(other.as_uint(&store), Some(1));
}

#[test]
fn release_of_an_owner_whose_node_was_transferred_frees_nothing() {
    let mut store = Store::new();
    let array = Plist::new_array(&mut store).array(&mut store).unwrap();
    let item = Plist::from_uint(&mut store, 4);
    let node = item.as_ptr(&store).unwrap();
    let mut alias = Plist::new_with_weak(node);
    array.append(&mut store, &mut alias).unwrap();
    item.release(&mut store);
    assert!(store.is_live(node));
    assert_eq!(array.get(&store, 0).unwrap().as_uint(&store), Some(4));
}

#[test]
fn copy_is_deep_and_independent() {
    let mut store = Store::new();
    let dict = Plist::new_dict(&mut store).dict(&mut store).unwrap();
    let mut list = Plist::new_array(&mut store);
    let list_node = list.as_ptr(&store).unwrap();
    dict.set(&mut store, "list", &mut list).unwrap();
    let list = Plist::new_with_weak(list_node).array(&mut store).unwrap();
    let mut one = Plist::from_uint(&mut store, 1);
    list.append(&mut store, &mut one).unwrap();
    let mut name = Plist::from_string(&mut store, "n");
    dict.set(&mut store, "name", &mut name).unwrap();

    let source = dict.into_plist();
    let copy = source.copy(&mut store).unwrap();
    assert!(copy.owns());
    assert_ne!(copy.as_ptr(&store), source.as_ptr(&store));
    let copy = copy.dict(&mut store).unwrap();
    assert_eq!(copy.len(&store), 2);
    assert_eq!(copy.get(&store, "name").unwrap().as_str(&store).unwrap(), "n");
    let copied_list = copy.get(&store, "list").unwrap();
    assert_ne!(copied_list.as_ptr(&store).unwrap(), list_node);
    let copied_list = copied_list.array(&mut store).unwrap();
    assert_eq!(copied_list.len(&store), 1);
    assert_eq!(copied_list.get(&store, 0).unwrap().as_uint(&store), Some(1));

    // a change to the source does not reach the copy, and the copy outlives it
    one.set_uint(&mut store, 2).unwrap();
    assert_eq!(copied_list.get(&store, 0).unwrap().as_uint(&store), Some(1));
    source.release(&mut store);
    assert_eq!(one.as_ptr(&store), Err(PlistError::Dealloc));
    assert_eq!(copied_list.get(&store, 0).unwrap().as_uint(&store), Some(1));
    assert_eq!(copy.get(&store, "name").unwrap().as_str(&store).unwrap(), "n");
}

#[test]
fn copy_of_a_dead_handle_fails() {
    let mut store = Store::new();
    let dead = Plist::new_with_weak(0);
    assert_eq!(dead.copy(&mut store).err(), Some(PlistError::Dealloc));
    let h = Plist::from_uint(&mut store, 1);
    let view = Plist::new_with_weak(h.as_ptr(&store).unwrap());
    h.release(&mut store);
    assert_eq!(view.copy(&mut store).err(), Some(PlistError::Dealloc));
}

#[test]
fn from_array_copies_and_leaves_the_items_owned() {
    let mut store = Store::new();
    let items = vec![Plist::from_uint(&mut store, 1), Plist::from_uint(&mut store, 2)];
    let array = Plist::from_array(&mut store, &items).unwrap();
    let array = array.array(&mut store).unwrap();
    assert!(items[0].owns());
    items[0].set_uint(&mut store, 50).unwrap();
    assert_eq!(array.get(&store, 0).unwrap().as_uint(&store), Some(1));
    assert_eq!(array.get(&store, 1).unwrap().as_uint(&store), Some(2));
    assert_ne!(array.get(&store, 0).unwrap().as_ptr(&store), items[0].as_ptr(&store));
}

#[test]
fn error_codes() {
    assert_eq!(PlistError::from(0), None);
    assert_eq!(PlistError::from(-1), Some(PlistError::InvalidArg));
    assert_eq!(PlistError::from(-2), Some(PlistError::Format));
    assert_eq!(PlistError::from(-3), Some(PlistError::Parse));
    assert_eq!(PlistError::from(-4), Some(PlistError::NoMemory));
    assert_eq!(PlistError::from(-255), Some(PlistError::Unknown));
    assert_eq!(PlistError::from(-5), Some(PlistError::Unknown));
    assert_eq!(PlistError::from(1), Some(PlistError::Unknown));
    assert_eq!(PlistError::from(i32::MAX), Some(PlistError::Unknown));
    assert_eq!(PlistError::try_from(0), Ok(()));
    assert_eq!(PlistError::try_from(-3), Err(PlistError::Parse));
    assert_eq!(PlistError::try_from(-5), Err(PlistError::Unknown));
    assert_eq!(PlistError::try_from(i32::MIN), Err(PlistError::Unknown));
}

#[test]
fn error_messages() {
    assert_eq!(PlistError::InvalidArg.message(), "Invalid argument");
    assert_eq!(PlistError::Format.message(), "Invalid format");
    assert_eq!(PlistError::Parse.message(), "Parse failed");
    assert_eq!(PlistError::NoMemory.message(), "No memory");
    assert_eq!(PlistError::Dealloc.message(), "Dealloc plist_t");
    assert_eq!(PlistError::Unknown.message(), "Unknown");
}

#[test]
fn type_tags() {
    let kinds = [
        PlistType::Boolean,
        PlistType::UInt,
        PlistType::Real,
        PlistType::String,
        PlistType::Array,
        PlistType::Dictionary,
        PlistType::Date,
        PlistType::Data,
        PlistType::Key,
        PlistType::UID,
        PlistType::Null,
        PlistType::NoNode,
    ];
    for (tag, kind) in kinds.iter().enumerate() {
        assert_eq!(PlistType::from(tag as u32), *kind);
    }
}

#[test]
fn node_type_tags() {
    let kinds = [
        PlistNodeType::Boolean,
        PlistNodeType::UInt,
        PlistNodeType::Real,
        PlistNodeType::String,
        PlistNodeType::Array,
        PlistNodeType::Dictionary,
        PlistNodeType::Date,
        PlistNodeType::Data,
        PlistNodeType::Key,
        PlistNodeType::UID,
        PlistNodeType::Null,
        PlistNodeType::NoNode,
    ];
    for (tag, kind) in kinds.iter().enumerate() {
        assert_eq!(PlistNodeType::from(tag as u32), *kind);
    }
}

#[test]
fn reclaim_empties_the_slots_of_dead_nodes_only() {
    let mut store = Store::new();
    let outer = Plist::new_array(&mut store).array(&mut store).unwrap();
    let mut inner = Plist::new_array(&mut store);
    let inner_node = inner.as_ptr(&store).unwrap();
    outer.append(&mut store, &mut inner).unwrap();
    let inner = Plist::new_with_weak(inner_node).array(&mut store).unwrap();
    let mut leaf = Plist::from_uint(&mut store, 3);
    inner.append(&mut store, &mut leaf).unwrap();
    let leaf_node = leaf.as_ptr(&store).unwrap();
    let kept = Plist::from_string(&mut store, "kept");
    let other = Plist::new_array(&mut store).array(&mut store).unwrap();
    let mut below = Plist::from_uint(&mut store, 8);
    other.append(&mut store, &mut below).unwrap();

    outer.into_plist().release(&mut store);
    assert!(!store.is_live(inner_node));
    assert!(!store.is_live(leaf_node));
    store.reclaim();
    assert!(!store.is_live(inner_node));
    assert_eq!(leaf.as_ptr(&store), Err(PlistError::Dealloc));
    assert_eq!(kept.as_str(&store).unwrap(), "kept");
    assert_eq!(other.get(&store, 0).unwrap().as_uint(&store), Some(8));
    assert_eq!(below.as_uint(&store), Some(8));
    // new nodes never take the slot of a freed one
    let fresh = Plist::from_uint(&mut store, 1);
    assert!(fresh.as_ptr(&store).unwrap() > below.as_ptr(&store).unwrap());
    assert_eq!(leaf.as_uint(&store), None);
}
