use columnar::dictionary::ListDictionary;

#[test]
fn test_storage() {
    let mut dict = ListDictionary::<u8>::new();
    let id = dict.lookup_or_insert("hello, world".as_ref());
    let id2 = dict.lookup_or_insert("hello, world".as_ref());
    assert_eq!(id, id2);
    let id3 = dict.lookup_or_insert("hello world".as_ref());
    assert_ne!(id, id3);
    let v1 = dict.get(id);
    let v2 = dict.get(id2);
    assert_eq!(v1, v2);
}

#[test]
fn storage_scenario() {
    let mut dict = ListDictionary::<u8>::new();
    let a = dict.lookup_or_insert("hello, world".as_ref());
    let again = dict.lookup_or_insert("hello, world".as_ref());
    assert_eq!(again, a);
    let b = dict.lookup_or_insert("hello world".as_ref());
    assert_ne!(b, a);
    assert_eq!(dict.get(a), dict.get(a));
    assert_eq!(dict.get(a), Some("hello, world".as_bytes()));
    assert_eq!(dict.get(b), Some("hello world".as_bytes()));
    assert_eq!(dict.lookup("not present".as_ref()), None);
}

#[test]
fn fresh_dictionary_scenario() {
    let mut dict = ListDictionary::<u8>::new();
    assert_eq!(dict.get(0), None);
    let first = dict.lookup_or_insert("anything".as_ref());
    assert_eq!(first, 1);
}

#[test]
fn dedup_idempotence() {
    let mut dict = ListDictionary::<u8>::new();
    dict.lookup_or_insert(&[9, 9, 9]);
    let before: usize = dict.len();
    let id = dict.lookup_or_insert(&[1, 2, 3]);
    let id2 = dict.lookup_or_insert(&[1, 2, 3]);
    assert_eq!(id, id2);
    assert!(dict.len() <= before + 1);
}

#[test]
fn distinct_values_distinct_ids() {
    let mut dict = ListDictionary::<u8>::new();
    let a = dict.lookup_or_insert(&[1, 2]);
    let b = dict.lookup_or_insert(&[1, 2, 0]);
    let c = dict.lookup_or_insert(&[2, 1]);
    assert_ne!(a, b);
    assert_ne!(a, c);
    assert_ne!(b, c);
}

#[test]
fn id_stable_under_growth() {
    let mut dict = ListDictionary::<u8>::new();
    let id = dict.lookup_or_insert(&[42]);
    let mut k: u8 = 0;
    while k < 100 {
        dict.lookup_or_insert(&[k, k, k]);
        k += 1;
    }
    assert_eq!(dict.lookup(&[42]), Some(id));
    assert_eq!(dict.lookup_or_insert(&[42]), id);
    assert_eq!(dict.get(id), Some([42u8].as_slice()));
}

#[test]
fn sentinel_is_absent() {
    let mut dict = ListDictionary::<u8>::new();
    assert_eq!(dict.get(0), None);
    dict.lookup_or_insert(&[1]);
    dict.lookup_or_insert(&[2]);
    assert_eq!(dict.get(0), None);
}

#[test]
fn lookup_does_not_mutate() {
    let mut dict = ListDictionary::<u8>::new();
    let id = dict.lookup_or_insert(&[5, 6]);
    let before: usize = dict.len();
    assert_eq!(dict.lookup(&[5, 6]), Some(id));
    assert_eq!(dict.len(), before);
    assert_eq!(dict.lookup(&[7, 8]), None);
    assert_eq!(dict.len(), before);
}

#[test]
fn empty_sequence_is_a_value() {
    let mut dict = ListDictionary::<u8>::new();
    let id = dict.lookup_or_insert(&[]);
    assert_eq!(id, 1);
    let id2 = dict.lookup_or_insert(&[]);
    assert_eq!(id2, id);
    assert_eq!(dict.len(), 1);
    assert_eq!(dict.get(id), Some([].as_slice()));
    assert_eq!(dict.lookup(&[]), Some(id));
}

#[test]
fn ids_are_dense_from_one() {
    let mut dict = ListDictionary::<u64>::new();
    let a = dict.lookup_or_insert(&[10, 20]);
    let b = dict.lookup_or_insert(&[30]);
    let c = dict.lookup_or_insert(&[]);
    assert_eq!((a, b, c), (1, 2, 3));
    assert_eq!(dict.len(), 3);
    assert_eq!(dict.get(2), Some([30u64].as_slice()));
    assert_eq!(dict.get(4), None);
}

#[test]
fn signed_elements_dedup_too() {
    let mut dict = ListDictionary::<i32>::new();
    let a = dict.lookup_or_insert(&[-1, 2, -3]);
    let b = dict.lookup_or_insert(&[-1, 2, -3]);
    let c = dict.lookup_or_insert(&[-1, 2, 3]);
    assert_eq!(a, b);
    assert_ne!(a, c);
    assert_eq!(dict.get(a), Some([-1i32, 2, -3].as_slice()));
}

#[test]
fn default_is_empty() {
    let dict: ListDictionary<u8> = Default::default();
    assert_eq!(dict.len(), 0);
    assert_eq!(dict.lookup(&[0]), None);
}
