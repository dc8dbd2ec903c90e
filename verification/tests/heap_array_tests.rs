use flash::batch::{partition, SparseBatch};
use flash::heap_array::HeapAllocatedArray;

#[test]
fn test_array_get_set() {
    let mut arr: HeapAllocatedArray<i32> = HeapAllocatedArray::with_value(4, 0);

    arr.set(2, 33);
    assert_eq!(33, arr.get(2));

    arr.set(1, 17);
    assert_eq!(17, arr.get(1));
    assert_eq!(33, arr.get(2));

    arr.set(2, -923);
    assert_eq!(-923, arr.get(2));

    assert_eq!(4, arr.len());
}

#[test]
fn test_array_index() {
    let mut arr: HeapAllocatedArray<i32> = HeapAllocatedArray::with_value(7, 0);

    arr.set(5, 33);
    assert_eq!(33, arr.get(5));

    arr.set(3, 77);
    assert_eq!(77, arr.get(3));

    assert_eq!(7, arr.len());
}

#[test]
fn test_with_default() {
    let h = HeapAllocatedArray::<usize>::with_default(1000);

    for i in 0..h.len() {
        assert_eq!(0, h.get(i));
    }
}

#[test]
fn test_with_value() {
    let h: HeapAllocatedArray<i8> = HeapAllocatedArray::with_value(1000, -3);

    for i in 0..h.len() {
        assert_eq!(-3, h.get(i));
    }
}

#[test]
fn test_fill() {
    let mut h: HeapAllocatedArray<u32> = HeapAllocatedArray::with_value(5, 7);
    h.fill(u32::MAX);
    for i in 0..h.len() {
        assert_eq!(u32::MAX, h.get(i));
    }
}

#[test]
fn partition_splits_evenly() {
    assert_eq!(partition(9, 3), vec![3, 3, 3]);
}

#[test]
fn partition_spreads_remainder() {
    assert_eq!(partition(10, 3), vec![4, 3, 3]);
    assert_eq!(partition(2, 4), vec![1, 1, 0, 0]);
}

#[test]
fn batch_len_counts_vectors() {
    let batch = SparseBatch { markers: vec![0, 4, 5, 7], indices: vec![88, 91, 120, 18223, 4, 177, 12] };
    assert_eq!(batch.len(), 3);

    let empty = SparseBatch { markers: vec![0], indices: vec![] };
    assert_eq!(empty.len(), 0);
}
