use plist_tree::plist_error::PlistError;
use plist_tree::record::Record;
use plist_tree::store::Store;
use plist_tree::store::Value;
use plist_tree::Plist;
use plist_tree::PlistType;

fn record(parent: usize, key: &str, value: Value) -> Record {
    Record { parent, key: key.to_string(), value }
}

fn sample() -> Vec<Record> {
    vec![
        record(0, "", Value::Dictionary(Vec::new(), Vec::new())),
        record(0, "test1", Value::String("foo".to_string())),
        record(0, "tests", Value::Array(Vec::new())),
        record(2, "", Value::Boolean(true)),
        record(2, "", Value::Boolean(false)),
        record(0, "test2", Value::UInt(10000)),
        record(2, "", Value::Data(vec![1, -1])),
    ]
}

#[test]
fn from_records_builds_the_tree() {
    let mut store = Store::new();
    let before = Plist::from_uint(&mut store, 1);
    let base = before.as_ptr(&store).unwrap() + 1;
    let root = Plist::from_records(&mut store, &sample()).unwrap();
    assert!(root.owns());
    assert_eq!(root.as_ptr(&store), Ok(base));
    let dict = root.dict(&mut store).unwrap();
    assert_eq!(dict.len(&store), 3);
    assert_eq!(dict.get(&store, "test1").unwrap().as_str(&store).unwrap(), "foo");
    assert_eq!(dict.get(&store, "test1").unwrap().as_ptr(&store), Ok(base + 1));
    assert_eq!(dict.get(&store, "test2").unwrap().as_uint(&store), Some(10000));
    assert_eq!(dict.get(&store, "test2").unwrap().as_ptr(&store), Ok(base + 5));
    let tests = dict.get(&store, "tests").unwrap().array(&mut store).unwrap();
    assert_eq!(tests.len(&store), 3);
    assert_eq!(tests.get(&store, 0).unwrap().as_bool(&store), Some(true));
    assert_eq!(tests.get(&store, 1).unwrap().as_bool(&store), Some(false));
    assert_eq!(tests.get(&store, 2).unwrap().as_data(&store).unwrap(), vec![1, -1]);
    assert_eq!(tests.get(&store, 2).unwrap().as_ptr(&store), Ok(base + 6));
    let mut iter = dict.into_iter();
    assert_eq!(iter.next(&store).unwrap().0, "test1");
    assert_eq!(iter.next(&store).unwrap().0, "tests");
    assert_eq!(iter.next(&store).unwrap().0, "test2");
    assert_eq!(before.as_uint(&store), Some(1));
}

#[test]
fn to_records_writes_the_tree_down_root_first() {
    let mut store = Store::new();
    let root = Plist::from_records(&mut store, &sample()).unwrap();
    let (records, slots) = root.to_records(&store).unwrap();
    assert_eq!(records.len(), 7);
    assert_eq!(slots.len(), 7);
    assert_eq!(slots[0], root.as_ptr(&store).unwrap());
    let parents: Vec<usize> = records.iter().map(|r| r.parent).collect();
    assert_eq!(parents, vec![0, 0, 0, 2, 2, 2, 0]);
    let keys: Vec<&str> = records.iter().map(|r| r.key.as_str()).collect();
    assert_eq!(keys, vec!["", "test1", "tests", "", "", "", "test2"]);
    assert!(matches!(records[0].value, Value::Dictionary(_, _)));
    assert!(matches!(&records[1].value, Value::String(s) if s == "foo"));
    assert!(matches!(&records[2].value, Value::Array(items) if items.is_empty()));
    assert!(matches!(records[3].value, Value::Boolean(true)));
    assert!(matches!(records[4].value, Value::Boolean(false)));
    assert!(matches!(&records[5].value, Value::Data(d) if d == &vec![1i8, -1]));
    assert!(matches!(records[6].value, Value::UInt(10000)));
    for (at, slot) in slots.iter().enumerate() {
        assert!(store.is_live(*slot), "slot of record {}", at);
    }
}

#[test]
fn records_of_a_tree_build_a_copy_of_it() {
    let mut store = Store::new();
    let first = Plist::from_records(&mut store, &sample()).unwrap();
    let first_node = first.as_ptr(&store).unwrap();
    let inner = Plist::new_with_weak(first_node).dict(&mut store).unwrap();
    let inner = inner.get(&store, "tests").unwrap();
    let (records, _) = inner.to_records(&store).unwrap();
    assert_eq!(records.len(), 4);
    let mut other = Store::new();
    let second = Plist::from_records(&mut other, &records).unwrap();
    assert_eq!(second.plist_type(&other), PlistType::Array);
    let second = second.array(&mut other).unwrap();
    assert_eq!(second.len(&other), 3);
    assert_eq!(second.get(&other, 0).unwrap().as_bool(&other), Some(true));
    assert_eq!(second.get(&other, 1).unwrap().as_bool(&other), Some(false));
    assert_eq!(second.get(&other, 2).unwrap().as_data(&other).unwrap(), vec![1, -1]);
    let (again, _) = second.into_plist().to_records(&other).unwrap();
    assert_eq!(again.len(), records.len());
    for (a, b) in again.iter().zip(records.iter()).skip(1) {
        assert_eq!(a.parent, b.parent);
        assert_eq!(a.key, b.key);
    }
}

#[test]
fn records_that_describe_no_tree_are_refused() {
    let mut store = Store::new();
    let kept = Plist::from_uint(&mut store, 5);
    let none: Vec<Record> = Vec::new();
    assert_eq!(Plist::from_records(&mut store, &none).err(), Some(PlistError::InvalidArg));
    let forward = vec![record(0, "", Value::Array(Vec::new())), record(1, "", Value::Null)];
    assert_eq!(Plist::from_records(&mut store, &forward).err(), Some(PlistError::InvalidArg));
    let below_scalar = vec![
        record(0, "", Value::Array(Vec::new())),
        record(0, "", Value::UInt(1)),
        record(1, "", Value::UInt(2)),
    ];
    let size = Plist::from_uint(&mut store, 0).as_ptr(&store).unwrap();
    assert_eq!(
        Plist::from_records(&mut store, &below_scalar).err(),
        Some(PlistError::InvalidArg)
    );
    assert!(!store.is_live(size + 1));
    assert!(!store.is_live(size + 2));
    let twice = vec![
        record(0, "", Value::Dictionary(Vec::new(), Vec::new())),
        record(0, "k", Value::UInt(1)),
        record(0, "k", Value::UInt(2)),
    ];
    assert_eq!(Plist::from_records(&mut store, &twice).err(), Some(PlistError::InvalidArg));
    let with_children = vec![record(0, "", Value::Array(vec![3]))];
    assert_eq!(
        Plist::from_records(&mut store, &with_children).err(),
        Some(PlistError::InvalidArg)
    );
    let same_key_in_arrays = vec![
        record(0, "", Value::Array(Vec::new())),
        record(0, "k", Value::UInt(1)),
        record(0, "k", Value::UInt(2)),
    ];
    assert!(Plist::from_records(&mut store, &same_key_in_arrays).is_ok());
    assert_eq!(kept.as_uint(&store), Some(5));
}

#[test]
fn to_records_of_a_dead_handle_fails() {
    let mut store = Store::new();
    let h = Plist::from_uint(&mut store, 1);
    let view = Plist::new_with_weak(h.as_ptr(&store).unwrap());
    h.release(&mut store);
    assert_eq!(view.to_records(&store).err(), Some(PlistError::Dealloc));
    assert_eq!(Plist::new_with_weak(77).to_records(&store).err(), Some(PlistError::Dealloc));
}
