use flatdata::arrayview::ArrayView;
use flatdata::memstorage::MemoryResourceStorage;
use flatdata::multiarrayview::MultiArrayView;
use flatdata::multivector::create_multi_vector;
use flatdata::records::IndexStruct;
use flatdata::storage::ResourceStorage;
use flatdata::test_structs::{AMut, Idx, Variant};

#[test]
fn test_multi_vector() {
    let mut storage = MemoryResourceStorage::new("/root/resources".to_string());
    {
        let mut mv = create_multi_vector::<Idx, Variant, _>(
            &mut storage,
            "multivector",
            "Some schema",
        )
        .expect("failed to create MultiVector");
        {
            mv.grow().expect("grow failed");
            {
                let mut a = AMut::new();
                a.set_x(1);
                a.set_y(2);
                assert_eq!(a.x(), 1);
                assert_eq!(a.y(), 2);
                mv.add(&Variant::A(a.to_record()));
            }
            {
                let mut b = AMut::new();
                b.set_x(3);
                b.set_y(4);
                assert_eq!(b.x(), 3);
                assert_eq!(b.y(), 4);
                mv.add(&Variant::A(b.to_record()));
            }
        }
        mv.close(&mut storage).expect("close failed");
    }

    let index_resource = storage
        .read_and_check_schema("multivector_index", "index(Some schema)")
        .expect("read_and_check_schema failed");
    let index: ArrayView<Idx> = ArrayView::new(&index_resource).expect("corrupt index region");
    let resource = storage
        .read_and_check_schema("multivector", "Some schema")
        .expect("read_and_check_schema failed");
    let mv: MultiArrayView<Idx, Variant> =
        MultiArrayView::new(index, resource.data()).expect("corrupt multivector");

    assert_eq!(mv.len(), 1);
    let mut item = mv.at(0);
    let a = item.next().unwrap();
    match a {
        Variant::A(ref a) => {
            assert_eq!(a.x(), 1);
            assert_eq!(a.y(), 2);
        }
    }
    let b = item.next().unwrap();
    match b {
        Variant::A(ref a) => {
            assert_eq!(a.x(), 3);
            assert_eq!(a.y(), 4);
        }
    }
    assert!(item.next().is_none());
}

// An item with no values appended yields no values when iterated, and
// its two index entries carry the same offset.  The number of items is
// the number of buckets opened before closing.
#[test]
fn test_empty_bucket() {
    let mut storage = MemoryResourceStorage::new("/root/resources".to_string());
    {
        let mut mv =
            create_multi_vector::<Idx, Variant, _>(&mut storage, "sparse", "sparse schema")
                .expect("failed to create MultiVector");
        mv.grow().expect("grow failed"); // bucket 0 stays empty
        mv.grow().expect("grow failed"); // bucket 1 holds one value
        let mut a = AMut::new();
        a.set_x(9);
        a.set_y(8);
        mv.add(&Variant::A(a.to_record()));
        mv.close(&mut storage).expect("close failed");
    }

    let index_resource = storage
        .read_and_check_schema("sparse_index", "index(sparse schema)")
        .expect("read_and_check_schema failed");
    let index: ArrayView<Idx> = ArrayView::new(&index_resource).expect("corrupt index region");
    // two items plus the sentinel entry
    assert_eq!(index.len(), 3);
    assert_eq!(index.at(0).value(), index.at(1).value());
    let resource = storage
        .read_and_check_schema("sparse", "sparse schema")
        .expect("read_and_check_schema failed");
    let mv: MultiArrayView<Idx, Variant> =
        MultiArrayView::new(index, resource.data()).expect("corrupt multivector");
    assert_eq!(mv.len(), 2);
    assert!(!mv.is_empty());
    let mut empty_item = mv.at(0);
    assert!(empty_item.next().is_none());
    let mut full_item = mv.at(1);
    match full_item.next().unwrap() {
        Variant::A(ref a) => {
            assert_eq!(a.x(), 9);
            assert_eq!(a.y(), 8);
        }
    }
    assert!(full_item.next().is_none());
    // the whole-container iterator yields the two bucket iterators
    let mut it = mv.iter();
    let mut first = it.next().unwrap();
    assert!(first.next().is_none());
    let mut second = it.next().unwrap();
    assert!(second.next().is_some());
    assert!(it.next().is_none());
}
