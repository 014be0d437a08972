use plist_tree::dict::DictGetter;
use plist_tree::dict::DictRemove;
use plist_tree::dict::DictSetter;
use plist_tree::dict::PlistDict;
use plist_tree::plist_error::PlistError;
use plist_tree::store::Store;
use plist_tree::Plist;

fn dict_of(store: &mut Store, entries: &[(&str, u64)]) -> PlistDict {
    let mut owned = Vec::new();
    for (key, value) in entries {
        owned.push((key.to_string(), Plist::from_uint(store, *value)));
    }
    let dict = Plist::from_dict(store, &owned).unwrap();
    for (_, item) in owned {
        item.release(store);
    }
    dict.dict(store).unwrap()
}

#[test]
fn dict_new_test() {
    let mut store = Store::new();
    let dict = dict_of(&mut store, &[("key1", 0), ("key2", 1)]);
    assert_eq!(dict.get(&store, "key1").unwrap().as_uint(&store).unwrap(), 0);
    assert_eq!(dict.get(&store, "key2").unwrap().as_uint(&store).unwrap(), 1);
}

#[test]
fn dict_len() {
    let mut store = Store::new();
    let dict = dict_of(&mut store, &[("key1", 0), ("key2", 1), ("key3", 2)]);

    assert_eq!(dict.len(&store), 3);
}

#[test]
fn dict_set() {
    let mut store = Store::new();
    let dict = dict_of(&mut store, &[("key1", 0), ("key2", 1)]);
    let mut item = Plist::from_uint(&mut store, 2);
    dict.set(&mut store, "key2", &mut item).unwrap();
    assert_eq!(dict.get(&store, "key2").unwrap().as_uint(&store).unwrap(), 2)
}

#[test]
fn dict_remove() {
    let mut store = Store::new();
    let dict = dict_of(&mut store, &[("key1", 0), ("key2", 1), ("key3", 2)]);
    dict.remove(&mut store, "key2").unwrap();
    assert_eq!(dict.len(&store), 2);
}

#[test]
fn dict_iter() {
    let mut store = Store::new();
    let key_values = [("key1", 0), ("key2", 1), ("key3", 2)];
    let dict = Plist::new_dict(&mut store).dict(&mut store).unwrap();
    for (key, value) in key_values {
        let mut item = Plist::from_uint(&mut store, value);
        dict.set(&mut store, key, &mut item).unwrap();
    }

    let mut iter = dict.into_iter();
    let mut index = 0;
    while let Some((key, value)) = iter.next(&store) {
        assert_eq!(key, key_values[index].0);
        assert_eq!(value.as_uint(&store).unwrap(), key_values[index].1);
        index += 1;
    }
    assert_eq!(index, 3);
    assert!(iter.next(&store).is_none());
}

#[test]
fn dict_get_string() {
    let mut store = Store::new();
    let dict = Plist::new_dict(&mut store).dict(&mut store).unwrap();
    let mut foo = Plist::from_string(&mut store, "foo");
    dict.set(&mut store, "test1", &mut foo).unwrap();
    let mut number = Plist::from_uint(&mut store, 10000);
    dict.set(&mut store, "test2", &mut number).unwrap();
    assert_eq!(dict.get(&store, "test1").unwrap().as_str(&store).unwrap(), "foo");
    assert!(dict.get(&store, "test3").is_none());
}

#[test]
fn dict_set_counts_new_keys_only() {
    let mut store = Store::new();
    let dict = dict_of(&mut store, &[("a", 1)]);
    assert_eq!(dict.len(&store), 1);
    let mut again = Plist::from_uint(&mut store, 2);
    dict.set(&mut store, "a", &mut again).unwrap();
    assert_eq!(dict.len(&store), 1);
    assert_eq!(dict.get(&store, "a").unwrap().as_ptr(&store), again.as_ptr(&store));
    let mut fresh = Plist::from_uint(&mut store, 3);
    dict.set(&mut store, "b", &mut fresh).unwrap();
    assert_eq!(dict.len(&store), 2);
    assert_eq!(dict.get(&store, "b").unwrap().as_uint(&store), Some(3));
    assert_eq!(dict.get(&store, "a").unwrap().as_uint(&store), Some(2));
}

#[test]
fn dict_remove_then_get_is_none() {
    let mut store = Store::new();
    let dict = dict_of(&mut store, &[("a", 1), ("b", 2), ("c", 3)]);
    let gone = dict.get(&store, "b").unwrap();
    dict.remove(&mut store, "b").unwrap();
    assert!(dict.get(&store, "b").is_none());
    assert_eq!(gone.as_ptr(&store), Err(PlistError::Dealloc));
    assert_eq!(dict.get(&store, "a").unwrap().as_uint(&store), Some(1));
    assert_eq!(dict.get(&store, "c").unwrap().as_uint(&store), Some(3));
}

#[test]
fn dict_remove_of_an_absent_key_changes_nothing() {
    let mut store = Store::new();
    let dict = dict_of(&mut store, &[("a", 1)]);
    assert_eq!(dict.remove(&mut store, "zzz"), Ok(()));
    assert_eq!(dict.len(&store), 1);
    assert_eq!(dict.get(&store, "a").unwrap().as_uint(&store), Some(1));
}

#[test]
fn dict_refuses_what_is_no_dict() {
    let mut store = Store::new();
    assert!(Plist::from_bool(&mut store, true).dict(&mut store).is_none());
    assert!(Plist::new_array(&mut store).dict(&mut store).is_none());
    assert!(Plist::new_with_weak(1000).dict(&mut store).is_none());
}

#[test]
fn dict_errors_leave_the_item_owned() {
    let mut store = Store::new();
    let dict = dict_of(&mut store, &[("a", 1)]);
    let mut nested = dict.get(&store, "a").unwrap();
    assert_eq!(dict.set(&mut store, "b", &mut nested), Err(PlistError::InvalidArg));
    let mut dead = Plist::new_with_weak(12345);
    assert_eq!(dict.set(&mut store, "b", &mut dead), Err(PlistError::Dealloc));
    assert_eq!(dict.len(&store), 1);
    let owner = dict.into_plist();
    let node = owner.as_ptr(&store).unwrap();
    owner.release(&mut store);
    let dict = Plist::new_with_weak(node).dict(&mut store);
    assert!(dict.is_none());
}

#[test]
fn merge_copies_and_overwrites() {
    let mut store = Store::new();
    let target = dict_of(&mut store, &[("a", 1), ("b", 2), ("c", 3)]);
    let source = dict_of(&mut store, &[("b", 20), ("d", 40)]);
    let old_b = target.get(&store, "b").unwrap();
    target.merge(&mut store, &source).unwrap();

    assert_eq!(target.len(&store), 4);
    assert_eq!(target.get(&store, "a").unwrap().as_uint(&store), Some(1));
    assert_eq!(target.get(&store, "b").unwrap().as_uint(&store), Some(20));
    assert_eq!(target.get(&store, "c").unwrap().as_uint(&store), Some(3));
    assert_eq!(target.get(&store, "d").unwrap().as_uint(&store), Some(40));
    assert_eq!(old_b.as_ptr(&store), Err(PlistError::Dealloc));

    // the order: old entries keep their places, new keys follow
    let mut iter = target.into_iter();
    let mut keys = Vec::new();
    while let Some((key, _)) = iter.next(&store) {
        keys.push(key);
    }
    assert_eq!(keys, vec!["a", "b", "c", "d"]);
    let target = iter.into_plist().dict(&mut store).unwrap();

    // the source is as it was, and owns what it owned
    assert_eq!(source.len(&store), 2);
    assert_eq!(source.get(&store, "b").unwrap().as_uint(&store), Some(20));
    assert_ne!(source.get(&store, "b").unwrap().as_ptr(&store), target.get(&store, "b").unwrap().as_ptr(&store));
    source.get(&store, "d").unwrap().set_uint(&mut store, 41).unwrap();
    assert_eq!(target.get(&store, "d").unwrap().as_uint(&store), Some(40));
    source.into_plist().release(&mut store);
    assert_eq!(target.get(&store, "d").unwrap().as_uint(&store), Some(40));
}

#[test]
fn merge_with_itself_and_with_nested_dictionaries() {
    let mut store = Store::new();
    let outer = dict_of(&mut store, &[("n", 1)]);
    let mut inner = Plist::new_dict(&mut store);
    let inner_node = inner.as_ptr(&store).unwrap();
    outer.set(&mut store, "inner", &mut inner).unwrap();
    let inner = Plist::new_with_weak(inner_node).dict(&mut store).unwrap();
    let mut leaf = Plist::from_uint(&mut store, 9);
    inner.set(&mut store, "leaf", &mut leaf).unwrap();

    // a dictionary into itself: every value is replaced by its copy
    let again = Plist::new_with_weak(outer.get(&store, "n").unwrap().as_ptr(&store).unwrap());
    let same = Plist::new_with_weak(inner_node).dict(&mut store).unwrap();
    inner.merge(&mut store, &same).unwrap();
    assert_eq!(inner.len(&store), 1);
    assert_eq!(inner.get(&store, "leaf").unwrap().as_uint(&store), Some(9));
    assert_eq!(leaf.as_ptr(&store), Err(PlistError::Dealloc));
    assert_eq!(again.as_uint(&store), Some(1));

    // the outer dictionary into the inner one
    inner.merge(&mut store, &outer).unwrap();
    assert_eq!(inner.len(&store), 3);
    assert_eq!(inner.get(&store, "n").unwrap().as_uint(&store), Some(1));
    let deep = inner.get(&store, "inner").unwrap().dict(&mut store).unwrap();
    assert_eq!(deep.get(&store, "leaf").unwrap().as_uint(&store), Some(9));
    assert_eq!(deep.len(&store), 1);
    assert_eq!(outer.len(&store), 2);
}

#[test]
fn merge_refuses_what_is_no_live_dictionary() {
    let mut store = Store::new();
    let target = dict_of(&mut store, &[("a", 1)]);
    let gone = dict_of(&mut store, &[("b", 2)]);
    let node = gone.get(&store, "b").unwrap().as_ptr(&store).unwrap();
    let view = Plist::new_with_weak(gone.into_plist().as_ptr(&store).unwrap());
    Plist::new(view.as_ptr(&store).unwrap()).release(&mut store);
    assert!(!store.is_live(node));
    let dict = dict_of(&mut store, &[("c", 3)]);
    let owner = dict.into_plist();
    let slot = owner.as_ptr(&store).unwrap();
    let dead = Plist::new_with_weak(slot).dict(&mut store).unwrap();
    owner.release(&mut store);
    assert_eq!(target.merge(&mut store, &dead), Err(PlistError::Dealloc));
    assert_eq!(dead.merge(&mut store, &target), Err(PlistError::Dealloc));
    assert_eq!(target.len(&store), 1);
}

#[test]
fn keys_of_either_string_type() {
    let mut store = Store::new();
    let dict = dict_of(&mut store, &[("a", 1)]);
    let mut item = Plist::from_uint(&mut store, 2);
    DictSetter::set(&dict, &mut store, "b".to_string(), &mut item).unwrap();
    assert!(!item.owns());
    let got = DictGetter::get(&dict, &store, "b".to_string()).unwrap();
    assert_eq!(got.as_uint(&store), Some(2));
    let got = DictGetter::<&str>::get(&dict, &store, "a").unwrap();
    assert_eq!(got.as_uint(&store), Some(1));
    DictRemove::remove(&dict, &mut store, "a".to_string()).unwrap();
    assert!(DictGetter::get(&dict, &store, "a".to_string()).is_none());
    let mut other = Plist::from_uint(&mut store, 3);
    DictSetter::<&str>::set(&dict, &mut store, "b", &mut other).unwrap();
    DictRemove::<&str>::remove(&dict, &mut store, "zzz").unwrap();
    assert_eq!(dict.len(&store), 1);
    assert_eq!(dict.get(&store, "b").unwrap().as_uint(&store), Some(3));
}

#[test]
fn from_dict_copies_in_order_and_refuses_a_key_twice() {
    let mut store = Store::new();
    let entries = vec![
        ("z".to_string(), Plist::from_uint(&mut store, 1)),
        ("a".to_string(), Plist::from_string(&mut store, "text")),
    ];
    let dict = Plist::from_dict(&mut store, &entries).unwrap();
    assert!(dict.owns());
    let dict = dict.dict(&mut store).unwrap();
    assert_eq!(dict.len(&store), 2);
    assert_eq!(dict.get(&store, "z").unwrap().as_uint(&store), Some(1));
    assert_eq!(dict.get(&store, "a").unwrap().as_str(&store).unwrap(), "text");
    assert_ne!(dict.get(&store, "z").unwrap().as_ptr(&store), entries[0].1.as_ptr(&store));
    assert!(entries[0].1.owns());
    let mut iter = dict.into_iter();
    assert_eq!(iter.next(&store).unwrap().0, "z");
    assert_eq!(iter.next(&store).unwrap().0, "a");
    assert!(iter.next(&store).is_none());

    let twice = vec![
        ("k".to_string(), Plist::from_uint(&mut store, 1)),
        ("k".to_string(), Plist::from_uint(&mut store, 2)),
    ];
    assert_eq!(Plist::from_dict(&mut store, &twice).err(), Some(PlistError::InvalidArg));
    let dead = vec![("k".to_string(), Plist::new_with_weak(4096))];
    assert_eq!(Plist::from_dict(&mut store, &dead).err(), Some(PlistError::Dealloc));
    let none: Vec<(String, Plist)> = Vec::new();
    let empty = Plist::from_dict(&mut store, &none).unwrap().dict(&mut store).unwrap();
    assert_eq!(empty.len(&store), 0);
}
