use flatdata::arrayview::ArrayView;
use flatdata::error::ResourceStorageError;
use flatdata::memstorage::MemoryResourceStorage;
use flatdata::records::{SortableStruct, Struct};
use flatdata::storage::ResourceStorage;
use flatdata::test_structs::{AMut, Gauge, A};
use flatdata::vector::create_sorted_external_vector;

#[test]
fn test_small_sorted_external_vector() {
    let mut storage = MemoryResourceStorage::new("/root/extvec".to_string());
    {
        let mut v =
            create_sorted_external_vector::<A, _>(&mut storage, "vector", "Some schema content")
                .expect("failed to create ExternalVector");
        {
            v.grow().expect("grow failed");
            let mut a = AMut::new();
            a.set_x(2);
            a.set_y(3);
            v.set_last(&a.to_record());
        }
        {
            v.grow().expect("grow failed");
            let mut a = AMut::new();
            a.set_x(0);
            a.set_y(1);
            v.set_last(&a.to_record());
        }
        v.sort_and_close(&mut storage).expect("close failed");
    }

    let resource = storage
        .read_and_check_schema("vector", "Some schema content")
        .expect("failed to read vector resource");

    let view: ArrayView<A> = ArrayView::new(&resource).expect("corrupt record region");
    assert_eq!(view.len(), 2);
    assert_eq!(view.at(0).x(), 0);
    assert_eq!(view.at(0).y(), 1);
    assert_eq!(view.at(1).x(), 2);
    assert_eq!(view.at(1).y(), 3);
}

#[test]
fn test_1mb_sorted_external_vector() {
    let num_elements = 1 * 1024 * 1024 / A::size_in_bytes();
    let mut storage = MemoryResourceStorage::new("/root/extvec".to_string());
    {
        let mut v =
            create_sorted_external_vector::<A, _>(&mut storage, "vector", "Some schema content")
                .expect("failed to create ExternalVector");
        for _ in 0..num_elements {
            v.grow().expect("grow failed");
            let mut a = AMut::new();
            a.set_x(rand::random::<u16>().into());
            a.set_y(rand::random::<u16>().into());
            v.set_last(&a.to_record());
        }
        v.sort_and_close(&mut storage).expect("close failed");
    }

    let resource = storage
        .read_and_check_schema("vector", "Some schema content")
        .expect("failed to read vector resource");

    let view: ArrayView<A> = ArrayView::new(&resource).expect("corrupt record region");
    assert_eq!(view.len(), num_elements);
    for i in 0..num_elements - 1 {
        let le = A::le_bytes(view.at(i).as_bytes(), view.at(i + 1).as_bytes());
        assert!(le == Some(true));
    }
}

// Sorting preserves the multiset of records: same values, same
// multiplicities, for an input with duplicates.
#[test]
fn test_sort_preserves_records() {
    let values: [(u32, u32); 6] = [(5, 0), (1, 9), (5, 0), (0, 0), (1, 2), (1, 2)];
    let mut storage = MemoryResourceStorage::new("/root/extvec".to_string());
    {
        let mut v = create_sorted_external_vector::<A, _>(&mut storage, "vector", "s")
            .expect("failed to create ExternalVector");
        for (x, y) in values.iter() {
            v.grow().expect("grow failed");
            let mut a = AMut::new();
            a.set_x(*x);
            a.set_y(*y);
            v.set_last(&a.to_record());
        }
        v.sort_and_close(&mut storage).expect("close failed");
    }
    let resource = storage
        .read_and_check_schema("vector", "s")
        .expect("failed to read vector resource");
    let view: ArrayView<A> = ArrayView::new(&resource).expect("corrupt record region");
    assert_eq!(view.len(), 6);
    let mut got: Vec<(u32, u32)> = (0..6).map(|i| (view.at(i).x(), view.at(i).y())).collect();
    let mut expected: Vec<(u32, u32)> = values.to_vec();
    expected.sort();
    got.sort();
    assert_eq!(got, expected);
    // and the stored order is sorted by (x, y)
    let stored: Vec<(u32, u32)> = (0..6).map(|i| (view.at(i).x(), view.at(i).y())).collect();
    let mut sorted = stored.clone();
    sorted.sort();
    assert_eq!(stored, sorted);
}

// A record pair the order cannot compare makes the sort fail instead of
// silently resolving the order.
#[test]
fn test_incomparable_records() {
    let mut storage = MemoryResourceStorage::new("/root/extvec".to_string());
    let mut v = create_sorted_external_vector::<Gauge, _>(&mut storage, "gauges", "gauge schema")
        .expect("failed to create ExternalVector");
    for reading in [7u8, 255, 3] {
        v.grow().expect("grow failed");
        v.set_last(&Gauge::with_reading(reading));
    }
    let r = v.sort_and_close(&mut storage);
    assert_eq!(r, Err(ResourceStorageError::IncomparableRecords));
}
