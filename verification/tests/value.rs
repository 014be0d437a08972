use plist_tree::plist_error::PlistError;
use plist_tree::store::Store;
use plist_tree::value::Setter;
use plist_tree::Plist;
use plist_tree::PlistType;

#[test]
fn test() {
    let mut store = Store::new();
    let plist = Plist::from_string(&mut store, "string");
    assert_eq!(plist.as_str(&store).unwrap(), "string");
    plist.set(&mut store, "new string").unwrap();
    assert_eq!(plist.as_str(&store).unwrap(), "new string");

    let plist = Plist::from_bool(&mut store, true);
    assert_eq!(plist.as_bool(&store).unwrap(), true);
    plist.set(&mut store, false).unwrap();
    assert_eq!(plist.as_bool(&store).unwrap(), false);

    let plist = Plist::from_uint(&mut store, 1 as u64);
    assert_eq!(plist.as_uint(&store).unwrap(), 1);
    plist.set(&mut store, u64::MAX).unwrap();
    assert_eq!(plist.as_uint(&store).unwrap(), u64::MAX);

    let plist = Plist::from_real(&mut store, (1 as f64).to_bits());
    assert_eq!(f64::from_bits(plist.as_real(&store).unwrap()), 1.0);
    plist.set_real(&mut store, f64::MAX.to_bits()).unwrap();
    assert_eq!(f64::from_bits(plist.as_real(&store).unwrap()), f64::MAX);

    let data: &[i8] = [1, 2, 3, 4, 5].as_slice();
    let plist = Plist::from_data(&mut store, data);
    assert_eq!(plist.as_data(&store).unwrap(), data);
    let data: &[i8] = [0].as_slice();
    plist.set(&mut store, data).unwrap();
    assert_eq!(plist.as_data(&store).unwrap(), data);

    let plist = Plist::from_uid(&mut store, 1);
    assert_eq!(plist.as_uid(&store).unwrap(), 1);
    plist.set_uid(&mut store, 0).unwrap();
    assert_eq!(plist.as_uid(&store).unwrap(), 0);
}

#[test]
fn dates_keys_and_null() {
    let mut store = Store::new();
    let date = Plist::from_date(&mut store, 10, -20);
    assert_eq!(date.plist_type(&store), PlistType::Date);
    assert_eq!(date.as_date(&store), Some((10, -20)));
    date.set_date(&mut store, i32::MIN, i32::MAX).unwrap();
    assert_eq!(date.as_date(&store), Some((i32::MIN, i32::MAX)));

    let null = Plist::null(&mut store);
    assert_eq!(null.plist_type(&store), PlistType::Null);
    null.set_key(&mut store, "name").unwrap();
    assert_eq!(null.plist_type(&store), PlistType::Key);
    assert_eq!(null.as_key(&store).unwrap(), "name");
    assert_eq!(null.as_str(&store), None);
}

#[test]
fn every_kind_is_read_by_its_own_accessor_only() {
    let mut store = Store::new();
    let handles = vec![
        Plist::from_string(&mut store, "s"),
        Plist::from_bool(&mut store, true),
        Plist::from_uint(&mut store, 7),
        Plist::from_real(&mut store, 2.5f64.to_bits()),
        Plist::from_data(&mut store, &[1, 2]),
        Plist::from_uid(&mut store, 9),
        Plist::from_date(&mut store, 1, 2),
        Plist::null(&mut store),
        Plist::new_array(&mut store),
        Plist::new_dict(&mut store),
    ];
    let key = Plist::null(&mut store);
    key.set_key(&mut store, "k").unwrap();
    let mut all = handles;
    all.push(key);
    let kinds = [
        PlistType::String,
        PlistType::Boolean,
        PlistType::UInt,
        PlistType::Real,
        PlistType::Data,
        PlistType::UID,
        PlistType::Date,
        PlistType::Null,
        PlistType::Array,
        PlistType::Dictionary,
        PlistType::Key,
    ];
    for (h, kind) in all.iter().zip(kinds.iter()) {
        assert_eq!(h.plist_type(&store), *kind);
        assert_eq!(h.as_str(&store).is_some(), *kind == PlistType::String);
        assert_eq!(h.as_bool(&store).is_some(), *kind == PlistType::Boolean);
        assert_eq!(h.as_uint(&store).is_some(), *kind == PlistType::UInt);
        assert_eq!(h.as_real(&store).is_some(), *kind == PlistType::Real);
        assert_eq!(h.as_data(&store).is_some(), *kind == PlistType::Data);
        assert_eq!(h.as_uid(&store).is_some(), *kind == PlistType::UID);
        assert_eq!(h.as_date(&store).is_some(), *kind == PlistType::Date);
        assert_eq!(h.as_key(&store).is_some(), *kind == PlistType::Key);
    }
}

#[test]
fn setters_refuse_containers_and_dead_handles() {
    let mut store = Store::new();
    let array = Plist::new_array(&mut store);
    assert_eq!(array.set_uint(&mut store, 1), Err(PlistError::InvalidArg));
    assert_eq!(array.plist_type(&store), PlistType::Array);
    let dict = Plist::new_dict(&mut store);
    assert_eq!(dict.set_string(&mut store, "x"), Err(PlistError::InvalidArg));
    let dead = Plist::new_with_weak(99);
    assert_eq!(dead.set_bool(&mut store, true), Err(PlistError::Dealloc));
    assert_eq!(dead.plist_type(&store), PlistType::NoNode);
    assert_eq!(dead.as_bool(&store), None);
}

#[test]
fn a_setter_keeps_the_node_in_its_place() {
    let mut store = Store::new();
    let array = Plist::new_array(&mut store).array(&mut store).unwrap();
    let mut item = Plist::from_uint(&mut store, 1);
    array.append(&mut store, &mut item).unwrap();
    item.set_string(&mut store, "now a string").unwrap();
    let got = array.get(&store, 0).unwrap();
    assert_eq!(got.as_ptr(&store), item.as_ptr(&store));
    assert_eq!(got.as_str(&store).unwrap(), "now a string");
    assert_eq!(got.as_uint(&store), None);
}

#[test]
fn setter_by_type_of_value() {
    let mut store = Store::new();
    let plist = Plist::from_string(&mut store, "string");
    plist.set(&mut store, "new string").unwrap();
    assert_eq!(plist.as_str(&store).unwrap(), "new string");
    plist.set(&mut store, "owned".to_string()).unwrap();
    assert_eq!(plist.as_str(&store).unwrap(), "owned");
    plist.set(&mut store, false).unwrap();
    assert_eq!(plist.as_bool(&store), Some(false));
    plist.set(&mut store, u64::MAX).unwrap();
    assert_eq!(plist.as_uint(&store), Some(u64::MAX));
    let data: &[i8] = &[-1, 0, 1];
    plist.set(&mut store, data).unwrap();
    assert_eq!(plist.as_data(&store).unwrap(), data);
    let array = Plist::new_array(&mut store);
    assert_eq!(array.set(&mut store, true), Err(PlistError::InvalidArg));
}
