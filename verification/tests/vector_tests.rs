use flatdata::arrayview::ArrayView;
use flatdata::memstorage::MemoryResourceStorage;
use flatdata::records::Struct;
use flatdata::storage::ResourceStorage;
use flatdata::test_structs::{A, AMut};
use flatdata::vector::{create_external_vector, Vector};

#[test]
fn test_vector_new() {
    let v: Vector<A> = Vector::new();
    assert_eq!(v.len(), 0);
}

#[test]
fn test_vector_index() {
    let mut v: Vector<A> = Vector::with_len(2);
    assert_eq!(v.len(), 2);
    {
        let mut a = AMut::from_record(&v.at(0));
        a.set_x(1);
        a.set_y(2);
        assert_eq!(a.x(), 1);
        assert_eq!(a.y(), 2);
        v.set(0, &a.to_record());
    }
    {
        let mut b = AMut::from_record(&v.at(1));
        b.set_x(3);
        b.set_y(4);
        assert_eq!(b.x(), 3);
        assert_eq!(b.y(), 4);
        v.set(1, &b.to_record());
    }
    let a = v.at(0);
    assert_eq!(a.x(), 1);
    assert_eq!(a.y(), 2);
    let b = v.at(1);
    assert_eq!(b.x(), 3);
    assert_eq!(b.y(), 4);
}

#[test]
fn test_vector_as_view() {
    let mut v: Vector<A> = Vector::with_len(1);
    assert_eq!(v.len(), 1);
    {
        let mut a = AMut::from_record(&v.at(0));
        a.set_x(1);
        assert_eq!(a.x(), 1);
        a.set_y(2);
        assert_eq!(a.y(), 2);
        v.set(0, &a.to_record());
    }
    let view = v.as_view();
    let a = view.at(0);
    assert_eq!(a.x(), 1);
    assert_eq!(a.y(), 2);
}

#[test]
fn test_vector_grow() {
    let mut v: Vector<A> = Vector::with_len(1);
    assert_eq!(v.len(), 1);
    {
        let mut a = AMut::from_record(&v.at(0));
        a.set_x(1);
        a.set_y(2);
        assert_eq!(a.x(), 1);
        assert_eq!(a.y(), 2);
        v.set(0, &a.to_record());
    }
    {
        v.grow();
        let mut b = AMut::new();
        b.set_x(3);
        b.set_y(4);
        assert_eq!(b.x(), 3);
        assert_eq!(b.y(), 4);
        v.set(1, &b.to_record());
    }
    {
        assert_eq!(v.len(), 2);
        let a = &v.at(0);
        assert_eq!(a.x(), 1);
        assert_eq!(a.y(), 2);
        let b = &v.at(1);
        assert_eq!(b.x(), 3);
        assert_eq!(b.y(), 4);
    }
    v.grow();
    assert_eq!(v.len(), 3);
}

// A fresh record is zero-filled, and the vector's byte size is always
// the record count times the record width.
#[test]
fn test_vector_sizes_and_zero_fill() {
    let mut v: Vector<A> = Vector::new();
    assert_eq!(v.size_in_bytes(), 0);
    v.grow();
    assert_eq!(v.size_in_bytes(), A::size_in_bytes());
    assert_eq!(v.at(0).x(), 0);
    assert_eq!(v.at(0).y(), 0);
    v.reserve(10);
    assert_eq!(v.len(), 1);
    v.grow();
    assert_eq!(v.size_in_bytes(), 2 * A::size_in_bytes());
    assert!(!v.is_empty());
    // the padding region past the records is all zero
    let raw = &v.data;
    let payload = v.size_in_bytes();
    assert_eq!(raw.len(), payload + 8);
    for j in payload..raw.len() {
        assert_eq!(raw[j], 0);
    }
}

// The concrete record scenario: write (1,2) then (3,4) through a
// Vector; both records read back field for field.
#[test]
fn test_record_scenario() {
    let mut v: Vector<A> = Vector::new();
    v.grow();
    let mut a = AMut::new();
    a.set_x(1);
    a.set_y(2);
    v.set(0, &a.to_record());
    v.grow();
    let mut b = AMut::new();
    b.set_x(3);
    b.set_y(4);
    v.set(1, &b.to_record());
    assert_eq!(v.at(0).x(), 1);
    assert_eq!(v.at(0).y(), 2);
    assert_eq!(v.at(1).x(), 3);
    assert_eq!(v.at(1).y(), 4);
}

// Streaming the records through an ExternalVector and reading the
// stored resource back yields the same records in append order.
#[test]
fn test_external_vector_read_back() {
    let mut storage = MemoryResourceStorage::new("/root/extvec".to_string());
    {
        let mut v = create_external_vector::<A, _>(&mut storage, "vector", "Some schema content")
            .expect("failed to create ExternalVector");
        assert!(v.is_open());
        assert!(v.is_empty());
        for i in 0..3u32 {
            v.grow().expect("grow failed");
            let mut a = AMut::new();
            a.set_x(10 + i);
            a.set_y(20 + i);
            v.set_last(&a.to_record());
            assert_eq!(v.last().x(), 10 + i);
        }
        assert_eq!(v.len(), 3);
        v.close(&mut storage).expect("close failed");
        assert!(!v.is_open());
    }
    let resource = storage
        .read_and_check_schema("vector", "Some schema content")
        .expect("failed to read vector resource");
    let view: ArrayView<A> = ArrayView::new(&resource).expect("corrupt record region");
    assert_eq!(view.len(), 3);
    let mut it = view.iter();
    for i in 0..3u32 {
        let a = it.next().expect("iterator ended early");
        assert_eq!(a.x(), 10 + i);
        assert_eq!(a.y(), 20 + i);
    }
    assert!(it.next().is_none());
}
