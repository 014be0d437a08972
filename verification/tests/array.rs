use plist_tree::array::PlistArray;
use plist_tree::plist_error::PlistError;
use plist_tree::store::Store;
use plist_tree::Plist;
use plist_tree::PlistType;

fn uints(store: &mut Store, values: &[u64]) -> PlistArray {
    let mut items = Vec::new();
    for v in values {
        items.push(Plist::from_uint(store, *v));
    }
    let array = Plist::from_array(store, &items).unwrap();
    for item in items {
        item.release(store);
    }
    array.array(store).unwrap()
}

#[test]
fn array_new_test() {
    let mut store = Store::new();
    let array = vec![Plist::from_string(&mut store, "test"), Plist::from_bool(&mut store, true)];
    let array = Plist::from_array(&mut store, &array).unwrap();
    let array = array.array(&mut store).unwrap();

    assert_eq!(array.get(&store, 0).unwrap().as_str(&store).unwrap(), "test");
    assert_eq!(array.get(&store, 1).unwrap().as_bool(&store).unwrap(), true);
}

#[test]
fn array_len() {
    let mut store = Store::new();
    let array = vec![
        Plist::from_uint(&mut store, 1),
        Plist::from_uint(&mut store, 1),
        Plist::from_uint(&mut store, 1),
    ];
    let array = Plist::from_array(&mut store, &array).unwrap();

    assert_eq!(array.array(&mut store).unwrap().len(&store), 3);
}

#[test]
fn array_set() {
    let mut store = Store::new();
    let array = uints(&mut store, &[0, 1]);
    let mut item = Plist::from_uint(&mut store, 2);
    array.set(&mut store, &mut item, 1).unwrap();
    assert_eq!(array.get(&store, 1).unwrap().as_uint(&store).unwrap(), 2)
}

#[test]
fn append() {
    let mut store = Store::new();
    let array = uints(&mut store, &[0]);
    let mut item = Plist::from_uint(&mut store, 1);
    array.append(&mut store, &mut item).unwrap();
    assert_eq!(array.get(&store, 0).unwrap().as_uint(&store).unwrap(), 0);
    assert_eq!(array.get(&store, 1).unwrap().as_uint(&store).unwrap(), 1);
}

#[test]
fn insert() {
    let mut store = Store::new();
    let array = uints(&mut store, &[0, 2]);
    let mut item = Plist::from_uint(&mut store, 1);
    array.insert(&mut store, &mut item, 1).unwrap();
    assert_eq!(array.len(&store), 3);
    assert_eq!(array.get(&store, 1).unwrap().as_uint(&store).unwrap(), 1);
}

#[test]
fn array_remove() {
    let mut store = Store::new();
    let array = uints(&mut store, &[0, 1, 2]);
    array.remove(&mut store, 1).unwrap();
    assert_eq!(array.len(&store), 2);
    assert_eq!(array.get(&store, 1).unwrap().as_uint(&store).unwrap(), 2);
}

#[test]
fn array_iter() {
    let mut store = Store::new();
    let values = [0, 2, 3];
    let array = uints(&mut store, &values);

    let mut iter = array.into_iter();
    let mut index = 0;
    while let Some(value) = iter.next(&store) {
        assert_eq!(value.as_uint(&store).unwrap(), values[index]);
        index += 1;
    }
    assert_eq!(index, 3);
    assert!(iter.next(&store).is_none());
}

#[test]
fn array_get_past_the_end() {
    let mut store = Store::new();
    let array = uints(&mut store, &[7]);
    assert!(array.get(&store, 1).is_none());
    assert!(array.get(&store, usize::MAX).is_none());
    assert_eq!(array.get(&store, 0).unwrap().plist_type(&store), PlistType::UInt);
}

#[test]
fn array_insert_shifts_later_elements() {
    let mut store = Store::new();
    let array = uints(&mut store, &[10, 11, 12, 13]);
    let before: Vec<usize> =
        (0..4).map(|i| array.get(&store, i).unwrap().as_ptr(&store).unwrap()).collect();
    let mut item = Plist::from_uint(&mut store, 99);
    let node = item.as_ptr(&store).unwrap();
    array.insert(&mut store, &mut item, 2).unwrap();
    assert_eq!(array.len(&store), 5);
    assert_eq!(array.get(&store, 2).unwrap().as_ptr(&store).unwrap(), node);
    assert_eq!(array.get(&store, 0).unwrap().as_ptr(&store).unwrap(), before[0]);
    assert_eq!(array.get(&store, 1).unwrap().as_ptr(&store).unwrap(), before[1]);
    for j in 2..4 {
        assert_eq!(array.get(&store, j + 1).unwrap().as_ptr(&store).unwrap(), before[j]);
    }
}

#[test]
fn array_insert_at_len_is_append() {
    let mut store = Store::new();
    let array = uints(&mut store, &[1, 2]);
    let mut item = Plist::from_uint(&mut store, 3);
    array.insert(&mut store, &mut item, 2).unwrap();
    assert_eq!(array.len(&store), 3);
    assert_eq!(array.get(&store, 2).unwrap().as_uint(&store), Some(3));
}

#[test]
fn array_remove_shifts_later_elements() {
    let mut store = Store::new();
    let array = uints(&mut store, &[10, 11, 12, 13]);
    let before: Vec<usize> =
        (0..4).map(|i| array.get(&store, i).unwrap().as_ptr(&store).unwrap()).collect();
    array.remove(&mut store, 1).unwrap();
    assert_eq!(array.len(&store), 3);
    assert_eq!(array.get(&store, 0).unwrap().as_ptr(&store).unwrap(), before[0]);
    for j in 1..3 {
        assert_eq!(array.get(&store, j).unwrap().as_ptr(&store).unwrap(), before[j + 1]);
    }
    assert!(!store.is_live(before[1]));
}

#[test]
fn array_out_of_range_is_invalid_arg() {
    let mut store = Store::new();
    let array = uints(&mut store, &[1, 2]);
    let mut item = Plist::from_uint(&mut store, 3);
    assert_eq!(array.set(&mut store, &mut item, 2), Err(PlistError::InvalidArg));
    assert_eq!(array.insert(&mut store, &mut item, 3), Err(PlistError::InvalidArg));
    assert_eq!(array.remove(&mut store, 2), Err(PlistError::InvalidArg));
    assert!(item.owns());
    assert_eq!(item.as_uint(&store), Some(3));
    assert_eq!(array.len(&store), 2);
}

#[test]
fn array_set_frees_the_old_element() {
    let mut store = Store::new();
    let array = uints(&mut store, &[1, 2]);
    let old = array.get(&store, 0).unwrap();
    let mut item = Plist::from_string(&mut store, "new");
    array.set(&mut store, &mut item, 0).unwrap();
    assert_eq!(old.as_uint(&store), None);
    assert_eq!(old.as_ptr(&store), Err(PlistError::Dealloc));
    assert_eq!(array.len(&store), 2);
    assert_eq!(array.get(&store, 0).unwrap().as_str(&store).unwrap(), "new");
    assert_eq!(array.get(&store, 1).unwrap().as_uint(&store), Some(2));
}

#[test]
fn array_refuses_what_is_no_array() {
    let mut store = Store::new();
    let scalar = Plist::from_uint(&mut store, 1);
    let node = scalar.as_ptr(&store).unwrap();
    assert!(scalar.array(&mut store).is_none());
    assert!(!store.is_live(node));
    let dict = Plist::new_dict(&mut store);
    assert!(dict.array(&mut store).is_none());
}

#[test]
fn array_refuses_itself_and_nested_nodes() {
    let mut store = Store::new();
    let outer = Plist::new_array(&mut store).array(&mut store).unwrap();
    let mut inner = Plist::new_array(&mut store);
    outer.append(&mut store, &mut inner).unwrap();
    let inner = inner.array(&mut store).unwrap();

    // the root of the tree cannot go below a node of its own tree
    let mut root = Plist::new_with_weak(outer.get(&store, 0).unwrap().as_ptr(&store).unwrap());
    let mut above = outer.into_plist();
    assert_eq!(inner.append(&mut store, &mut above), Err(PlistError::InvalidArg));
    assert!(above.owns());
    // a node that stands in a container cannot go into another place
    let outer = above.array(&mut store).unwrap();
    assert_eq!(outer.append(&mut store, &mut root), Err(PlistError::InvalidArg));
    assert_eq!(outer.len(&store), 1);
}

#[test]
fn array_of_a_dead_handle() {
    let mut store = Store::new();
    let array = uints(&mut store, &[1]);
    let view = Plist::new_with_weak(array.get(&store, 0).unwrap().as_ptr(&store).unwrap());
    let owner = array.into_plist();
    let node = owner.as_ptr(&store).unwrap();
    owner.release(&mut store);
    let array = Plist::new_with_weak(node);
    assert!(array.array(&mut store).is_none());
    assert_eq!(view.as_ptr(&store), Err(PlistError::Dealloc));
    let items = vec![view];
    assert_eq!(Plist::from_array(&mut store, &items).err(), Some(PlistError::Dealloc));
}

#[test]
fn nested_containers_build_in_any_order() {
    let mut store = Store::new();
    // inner first, outer later
    let mut leaf = Plist::from_uint(&mut store, 5);
    let mut inner = Plist::new_array(&mut store);
    let mut outer = Plist::new_array(&mut store);
    let top = Plist::new_array(&mut store).array(&mut store).unwrap();
    let outer_node = outer.as_ptr(&store).unwrap();
    let inner_node = inner.as_ptr(&store).unwrap();
    top.append(&mut store, &mut outer).unwrap();
    let outer = Plist::new_with_weak(outer_node).array(&mut store).unwrap();
    outer.append(&mut store, &mut inner).unwrap();
    let inner = Plist::new_with_weak(inner_node).array(&mut store).unwrap();
    inner.append(&mut store, &mut leaf).unwrap();
    assert_eq!(leaf.as_uint(&store), Some(5));
    let got = top.get(&store, 0).unwrap().array(&mut store).unwrap();
    let got = got.get(&store, 0).unwrap().array(&mut store).unwrap();
    assert_eq!(got.get(&store, 0).unwrap().as_uint(&store), Some(5));
    top.into_plist().release(&mut store);
    assert_eq!(leaf.as_ptr(&store), Err(PlistError::Dealloc));
    assert_eq!(inner.len(&store), 0);
}
