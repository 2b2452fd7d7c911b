//! Read-only zero-copy view over a region of record bytes.

use crate::error::ResourceStorageError;
use crate::records::Struct;
use vstd::prelude::*;

verus! {

/// The byte image of record `i` in a payload of records that are each
/// `s` bytes wide.
pub open spec fn record_at(payload: Seq<u8>, s: int, i: int) -> Seq<u8> {
    payload.subrange(i * s, (i + 1) * s)
}

/// The byte image of a zero-filled record of width `s`.
pub open spec fn zero_record(s: int) -> Seq<u8> {
    Seq::new(s as nat, |i: int| 0u8)
}

/// A payload that is the concatenation of records `recs`, each `s` bytes
/// wide, reads back record for record.
///
/// This is the read-back law shared by every container here: whatever
/// sequence of records was appended, the view over the resulting payload
/// yields byte-identical records in append order, and so records that
/// agree field for field.
pub proof fn lemma_records_read_back(recs: Seq<Seq<u8>>, s: int)
    requires
        1 <= s,
        forall|i: int| 0 <= i < recs.len() ==> #[trigger] recs[i].len() == s,
    ensures
        recs.flatten().len() == recs.len() * s,
        forall|i: int| 0 <= i < recs.len() ==> #[trigger] record_at(recs.flatten(), s, i) == recs[i],
    decreases recs.len(),
{
    if recs.len() == 0 {
        assert(recs.flatten() =~= Seq::<u8>::empty());
    } else {
        let rest = recs.drop_first();
        lemma_records_read_back(rest, s);
        assert(recs.flatten() == recs.first() + rest.flatten());
        assert(recs.flatten().len() == recs.len() * s) by (nonlinear_arith)
            requires
                recs.flatten().len() == s + rest.flatten().len(),
                rest.flatten().len() == rest.len() * s,
                rest.len() == recs.len() - 1,
        ;
        let flat = recs.flatten();
        let rflat = rest.flatten();
        assert(recs[0].len() == s);
        assert forall|i: int| 0 <= i < recs.len() implies #[trigger] record_at(flat, s, i)
            == recs[i] by {
            assert(0 <= i * s && (i + 1) * s <= recs.len() * s && i * s + s == (i + 1) * s)
                by (nonlinear_arith)
                requires 0 <= i < recs.len(), 1 <= s,
            ;
            if i == 0 {
                assert forall|j: int| 0 <= j < s implies record_at(flat, s, 0)[j] == recs[0][j] by {
                    assert(flat[0 * s + j] == (recs[0] + rflat)[j]);
                    assert((recs[0] + rflat)[j] == recs[0][j]);
                }
                assert(record_at(flat, s, 0) =~= recs[0]);
            } else {
                assert(record_at(rflat, s, i - 1) == rest[i - 1]);
                assert((i - 1) * s == i * s - s && (i - 1 + 1) * s == (i + 1) * s - s)
                    by (nonlinear_arith);
                assert forall|j: int| 0 <= j < s implies record_at(flat, s, i)[j] == record_at(
                    rflat,
                    s,
                    i - 1,
                )[j] by {
                    assert(record_at(flat, s, i)[j] == flat[i * s + j]);
                    assert(flat[i * s + j] == (recs[0] + rflat)[i * s + j]);
                    assert(i * s + j >= s);
                    assert((recs[0] + rflat)[i * s + j] == rflat[i * s + j - s]);
                    assert(record_at(rflat, s, i - 1)[j] == rflat[(i - 1) * s + j]);
                }
                assert(record_at(flat, s, i) =~= record_at(rflat, s, i - 1));
            }
        }
    }
}

/// A read-only, zero-copy, indexed view over borrowed record bytes.
///
/// The view neither owns nor copies the bytes; it stays valid exactly as
/// long as the borrow it was built from.
pub struct ArrayView<'a, T> {
    /// The viewed bytes.
    pub data: &'a [u8],
    /// Number of records in the region.
    pub len: usize,
    /// Marker tying the view to its record type.
    pub _phantom: core::marker::PhantomData<T>,
}

impl<'a, T: Struct> ArrayView<'a, T> {
    /// The region is exactly `len` records wide.
    pub open spec fn wf(&self) -> bool {
        self.data@.len() == self.len as int * T::size_spec()
    }

    /// Number of records in the view.
    pub open spec fn len_spec(&self) -> int {
        self.len as int
    }

    /// The viewed bytes.
    pub open spec fn payload(&self) -> Seq<u8> {
        self.data@
    }

    /// Builds a view over a region already known to hold a whole number
    /// of records.
    pub fn from_exact(data: &'a [u8], len: usize) -> (r: Self)
        requires
            data@.len() == len as int * T::size_spec(),
        ensures
            r.wf(),
            r.len_spec() == len,
            r.payload() == data@,
    {
        ArrayView { data, len, _phantom: core::marker::PhantomData }
    }

    /// Builds a view over a resource descriptor's bytes.
    ///
    /// The bytes must hold a whole number of records: a remainder means
    /// the resource is corrupt, and the view is refused rather than
    /// silently truncated.
    pub fn new(mem: &'a crate::storage::MemoryDescriptor) -> (r: Result<
        Self,
        ResourceStorageError,
    >)
        ensures
            match r {
                Ok(v) => {
                    &&& v.wf()
                    &&& v.payload() == mem@
                    &&& v.len_spec() * T::size_spec() == mem@.len()
                },
                Err(e) => {
                    &&& e == ResourceStorageError::UnexpectedDataSize
                    &&& mem@.len() as int % T::size_spec() != 0
                },
            },
    {
        Self::over_bytes(mem.data())
    }

    /// Builds a view over a borrowed byte region.
    ///
    /// The region must hold a whole number of records: a remainder means
    /// the region is corrupt, and the view is refused rather than
    /// silently truncated.
    pub fn over_bytes(data: &'a [u8]) -> (r: Result<Self, ResourceStorageError>)
        ensures
            match r {
                Ok(v) => {
                    &&& v.wf()
                    &&& v.payload() == data@
                    &&& v.len_spec() * T::size_spec() == data@.len()
                },
                Err(e) => {
                    &&& e == ResourceStorageError::UnexpectedDataSize
                    &&& data@.len() as int % T::size_spec() != 0
                },
            },
    {
        let s = T::size_in_bytes();
        let n = data.len();
        if n % s != 0 {
            Err(ResourceStorageError::UnexpectedDataSize)
        } else {
            let len = n / s;
            proof {
                vstd::arithmetic::div_mod::lemma_fundamental_div_mod(n as int, s as int);
                assert(s as int * (len as int) == len as int * s) by (nonlinear_arith);
            }
            Ok(ArrayView { data, len, _phantom: core::marker::PhantomData })
        }
    }

    /// Number of records in the view.
    pub fn len(&self) -> (r: usize)
        ensures
            r == self.len_spec(),
    {
        self.len
    }

    /// Whether the view holds no records.
    pub fn is_empty(&self) -> (r: bool)
        ensures
            r == (self.len_spec() == 0),
    {
        self.len == 0
    }

    /// The record at position `index`.
    pub fn at(&self, index: usize) -> (r: T)
        requires
            self.wf(),
            index < self.len_spec(),
        ensures
            r.wf(),
            r.bytes() == record_at(self.payload(), T::size_spec(), index as int),
    {
        let s = T::size_in_bytes();
        let n = self.data.len();
        proof {
            assert(index as int * s + s == (index + 1) as int * s) by (nonlinear_arith);
            assert((index + 1) as int * s <= self.len as int * s) by (nonlinear_arith)
                requires index as int + 1 <= self.len as int, s >= 1,
            ;
            assert(index as int * s >= 0) by (nonlinear_arith);
        }
        let chunk = vstd::slice::slice_subrange(self.data, index * s, index * s + s);
        T::from_bytes(chunk)
    }

    /// An iterator over the records, in index order.  Iteration is
    /// restartable: a fresh iterator can be taken at any time.
    pub fn iter(&self) -> (r: ArrayViewIter<'a, T>)
        requires
            self.wf(),
        ensures
            r.view.wf(),
            r.view.payload() == self.payload(),
            r.view.len_spec() == self.len_spec(),
            r.pos == 0,
    {
        ArrayViewIter { view: ArrayView { data: self.data, len: self.len, _phantom: core::marker::PhantomData }, pos: 0 }
    }
}

/// Iterator over the records of an [`ArrayView`], in index order.
pub struct ArrayViewIter<'a, T> {
    /// The view being walked.
    pub view: ArrayView<'a, T>,
    /// Position of the next record to yield.
    pub pos: usize,
}

impl<'a, T: Struct> ArrayViewIter<'a, T> {
    /// Yields the next record, or `None` when every record was yielded.
    pub fn next(&mut self) -> (r: Option<T>)
        requires
            old(self).view.wf(),
            old(self).pos <= old(self).view.len_spec(),
        ensures
            final(self).view == old(self).view,
            match r {
                Some(t) => {
                    &&& old(self).pos < old(self).view.len_spec()
                    &&& final(self).pos == old(self).pos + 1
                    &&& t.wf()
                    &&& t.bytes() == record_at(
                        old(self).view.payload(),
                        T::size_spec(),
                        old(self).pos as int,
                    )
                },
                None => {
                    &&& old(self).pos == old(self).view.len_spec()
                    &&& final(self).pos == old(self).pos
                },
            },
    {
        if self.pos < self.view.len() {
            let t = self.view.at(self.pos);
            self.pos = self.pos + 1;
            Some(t)
        } else {
            None
        }
    }
}

} // verus!
