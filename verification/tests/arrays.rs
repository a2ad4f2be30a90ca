use columnar::Array;
use columnar::IdListArray;
use columnar::ListArray;
use columnar::NullableFixedSizeListArray;
use columnar::NullableFixedSizeListRefMut;

#[test]
fn list_array_append_and_get() {
    let mut arr = ListArray::<u8>::new();
    assert_eq!(arr.len(), 0);
    assert_eq!(arr.get(0), None);
    let p0 = arr.append(&[1, 2, 3]);
    let p1 = arr.append(&[]);
    let p2 = arr.append(&[4]);
    assert_eq!((p0, p1, p2), (0, 1, 2));
    assert_eq!(arr.len(), 3);
    assert_eq!(arr.get(0), Some([1u8, 2, 3].as_slice()));
    assert_eq!(arr.get(1), Some([].as_slice()));
    assert_eq!(arr.get(2), Some([4u8].as_slice()));
    assert_eq!(arr.get(3), None);
}

#[test]
fn list_array_offsets_layout() {
    let mut arr = ListArray::<u8>::new();
    assert_eq!(arr.offsets().as_slice(), [0usize].as_slice());
    arr.append(&[1, 2, 3]);
    arr.append(&[]);
    arr.append(&[4]);
    assert_eq!(arr.offsets().as_slice(), [0usize, 3, 3, 4].as_slice());
    assert_eq!(arr.values().as_slice(), [1u8, 2, 3, 4].as_slice());
}

#[test]
fn list_array_default_is_empty() {
    let arr: ListArray<u64> = Default::default();
    assert_eq!(arr.len(), 0);
    assert_eq!(arr.get(0), None);
}

#[test]
fn id_list_array_dedups_storage() {
    let mut arr = IdListArray::<u8>::new();
    assert_eq!(arr.len(), 0);
    let p0 = arr.append("left".as_ref());
    let p1 = arr.append("right".as_ref());
    let p2 = arr.append("left".as_ref());
    assert_eq!((p0, p1, p2), (0, 1, 2));
    assert_eq!(arr.len(), 3);
    assert_eq!(arr.get_id(0), arr.get_id(2));
    assert_ne!(arr.get_id(0), arr.get_id(1));
    assert_eq!(arr.get_id(3), None);
    assert_eq!(arr.get(0), Some("left".as_bytes()));
    assert_eq!(arr.get(1), Some("right".as_bytes()));
    assert_eq!(arr.get(2), Some("left".as_bytes()));
    assert_eq!(arr.get(3), None);
}

#[test]
fn id_list_array_new_matches_default() {
    let a: IdListArray<u16> = IdListArray::new();
    let b: IdListArray<u16> = Default::default();
    assert_eq!(a.len(), b.len());
}

#[test]
fn nullable_fixed_size_append_and_get() {
    let mut arr = NullableFixedSizeListArray::<u32>::new(3);
    assert_eq!(arr.list_size(), 3);
    assert_eq!(arr.len(), 0);
    assert!(arr.get(0).is_none());
    let p0 = arr.append(&[1, 2, 3], true);
    let p1 = arr.append(&[4, 5, 6], false);
    assert_eq!((p0, p1), (0, 1));
    assert_eq!(arr.len(), 2);
    let first = arr.get(0).unwrap();
    assert!(first.validity);
    assert_eq!(first.data, [1u32, 2, 3].as_slice());
    let second = arr.get(1).unwrap();
    assert!(!second.validity);
    assert!(arr.get(2).is_none());
}

#[test]
fn nullable_fixed_size_set_overwrites_one_group() {
    let mut arr = NullableFixedSizeListArray::<u8>::new(2);
    arr.append(&[1, 2], true);
    arr.append(&[3, 4], false);
    arr.set(1, &NullableFixedSizeListRefMut { validity: true, data: vec![7, 8] });
    let first = arr.get(0).unwrap();
    assert!(first.validity);
    assert_eq!(first.data, [1u8, 2].as_slice());
    let second = arr.get(1).unwrap();
    assert!(second.validity);
    assert_eq!(second.data, [7u8, 8].as_slice());
    assert_eq!(arr.len(), 2);
}
