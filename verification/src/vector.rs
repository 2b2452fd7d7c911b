//! Growable record containers: the owned in-memory [`Vector`], the
//! streaming, bounded-memory [`ExternalVector`], and the
//! sort-on-close [`SortedExternalVector`].

use crate::arrayview::{record_at, zero_record, ArrayView};
use crate::error::ResourceStorageError;
use crate::records::{SortableStruct, Struct};
use crate::storage::{is_framed, ResourceHandle, ResourceStorage, Stream};
use crate::PADDING_SIZE;
use vstd::prelude::*;
use vstd::string::{StringExecFns, StringSliceAdditionalSpecFns};

verus! {

/// An owned, growable, contiguous array of fixed-width records.
///
/// The vector owns a byte buffer holding `len` records followed by
/// [`PADDING_SIZE`] zero bytes, so that wide reads at the tail of the
/// last record never touch unallocated memory.
pub struct Vector<T> {
    /// `len` records followed by the zero padding region.
    pub data: Vec<u8>,
    /// Number of records.
    pub len: usize,
    /// Marker tying the container to its record type.
    pub _phantom: core::marker::PhantomData<T>,
}

impl<T: Struct> Vector<T> {
    /// The buffer holds exactly `len` records plus the padding region,
    /// and the padding region is all zero.
    pub open spec fn wf(&self) -> bool {
        &&& self.data@.len() == self.len as int * T::size_spec() + PADDING_SIZE
        &&& forall|j: int|
            self.len as int * T::size_spec() <= j < self.data@.len() ==> self.data@[j] == 0
    }

    /// Number of records.
    pub open spec fn len_spec(&self) -> int {
        self.len as int
    }

    /// The record bytes, without the padding region.
    pub open spec fn payload(&self) -> Seq<u8> {
        self.data@.subrange(0, self.len as int * T::size_spec())
    }

    /// The byte image of record `i`.
    pub open spec fn record_spec(&self, i: int) -> Seq<u8> {
        record_at(self.payload(), T::size_spec(), i)
    }

    /// Creates an empty vector.
    pub fn new() -> (r: Self)
        ensures
            r.wf(),
            r.len_spec() == 0,
    {
        Self::with_len(0)
    }

    /// Creates a vector of `len` zero-filled records.
    pub fn with_len(len: usize) -> (r: Self)
        requires
            len as int * T::size_spec() + PADDING_SIZE <= usize::MAX,
        ensures
            r.wf(),
            r.len_spec() == len,
            forall|i: int| 0 <= i < len ==> r.record_spec(i) == zero_record(T::size_spec()),
    {
        let s = T::size_in_bytes();
        proof {
            assert(len as int * s >= 0) by (nonlinear_arith)
                requires 0 <= len as int, 0 <= s,
            ;
        }
        let total = len * s + PADDING_SIZE;
        let mut data: Vec<u8> = Vec::new();
        let mut k: usize = 0;
        while k < total
            invariant
                k <= total,
                data@.len() == k,
                forall|j: int| 0 <= j < k ==> data@[j] == 0,
            decreases total - k,
        {
            data.push(0);
            k = k + 1;
        }
        let r = Vector { data, len, _phantom: core::marker::PhantomData };
        proof {
            assert forall|i: int| 0 <= i < len implies r.record_spec(i) == zero_record(
                T::size_spec(),
            ) by {
                assert(0 <= i * s && (i + 1) * s <= len as int * s) by (nonlinear_arith)
                    requires 0 <= i < len as int, 1 <= s,
                ;
                assert(i * s + s == (i + 1) * s) by (nonlinear_arith);
                assert forall|j: int| 0 <= j < s implies #[trigger] r.data@[i * s + j] == 0u8 by {}
                assert(r.record_spec(i) =~= zero_record(T::size_spec()));
            }
        }
        r
    }

    /// Size of the record bytes, excluding padding: always `len`
    /// records times the record width.
    pub fn size_in_bytes(&self) -> (r: usize)
        requires
            self.wf(),
        ensures
            r as int == self.len_spec() * T::size_spec(),
            r as int == self.payload().len(),
    {
        proof {
            T::lemma_size_pos();
            assert(self.len as int * T::size_spec() >= 0) by (nonlinear_arith)
                requires 0 <= self.len as int, 1 <= T::size_spec(),
            ;
        }
        self.data.len() - PADDING_SIZE
    }

    /// Number of records.
    pub fn len(&self) -> (r: usize)
        ensures
            r == self.len_spec(),
    {
        self.len
    }

    /// Whether the vector holds no records.
    pub fn is_empty(&self) -> (r: bool)
        ensures
            r == (self.len_spec() == 0),
    {
        self.len == 0
    }

    /// Pre-allocates room for `additional` more records.  The contents
    /// and length are unchanged; only capacity may grow.
    pub fn reserve(&mut self, additional: usize)
        requires
            old(self).wf(),
            additional as int * T::size_spec() <= usize::MAX,
        ensures
            final(self).data@ == old(self).data@,
            final(self).len == old(self).len,
            final(self).wf(),
    {
        let s = T::size_in_bytes();
        proof {
            assert(additional as int * s >= 0) by (nonlinear_arith)
                requires 0 <= additional as int, 0 <= s,
            ;
        }
        self.data.reserve(additional * s);
    }

    /// The record bytes, excluding the padding region.
    pub fn as_bytes(&self) -> (r: &[u8])
        requires
            self.wf(),
        ensures
            r@ == self.payload(),
    {
        proof {
            T::lemma_size_pos();
            assert(self.len as int * T::size_spec() >= 0) by (nonlinear_arith)
                requires 0 <= self.len as int, 1 <= T::size_spec(),
            ;
        }
        vstd::slice::slice_subrange(self.data.as_slice(), 0, self.data.len() - PADDING_SIZE)
    }

    /// A read-only view of the current records.  Any later mutation of
    /// the vector invalidates the view (the borrow checker enforces it).
    pub fn as_view(&self) -> (r: ArrayView<'_, T>)
        requires
            self.wf(),
        ensures
            r.wf(),
            r.len_spec() == self.len_spec(),
            r.payload() == self.payload(),
            forall|i: int|
                0 <= i < self.len_spec() ==> record_at(r.payload(), T::size_spec(), i)
                    == self.record_spec(i),
    {
        proof {
            T::lemma_size_pos();
            assert(self.len as int * T::size_spec() >= 0) by (nonlinear_arith)
                requires 0 <= self.len as int, 1 <= T::size_spec(),
            ;
        }
        ArrayView::from_exact(self.as_bytes(), self.len)
    }

    /// Appends one zero-filled record.
    pub fn grow(&mut self)
        requires
            old(self).wf(),
            (old(self).len_spec() + 1) * T::size_spec() + PADDING_SIZE <= usize::MAX,
        ensures
            final(self).wf(),
            final(self).len_spec() == old(self).len_spec() + 1,
            final(self).payload() == old(self).payload() + zero_record(T::size_spec()),
            forall|i: int|
                0 <= i < old(self).len_spec() ==> final(self).record_spec(i) == old(self).record_spec(i),
            final(self).record_spec(old(self).len_spec()) == zero_record(T::size_spec()),
    {
        let s = T::size_in_bytes();
        let ghost oldself = *old(self);
        proof {
            assert((oldself.len as int + 1) * s == oldself.len as int * s + s) by (nonlinear_arith);
        }
        proof {
            assert(oldself.len as int + 1 <= usize::MAX && oldself.len as int * s >= 0)
                by (nonlinear_arith)
                requires
                    (oldself.len as int + 1) * s + PADDING_SIZE <= usize::MAX,
                    1 <= s,
                    0 <= oldself.len as int,
            ;
        }
        let mut k: usize = 0;
        while k < s
            invariant
                k <= s,
                oldself.len as int + 1 <= usize::MAX,
                self.data@.len() == oldself.data@.len() + k,
                self.len == oldself.len,
                forall|j: int| 0 <= j < oldself.data@.len() ==> self.data@[j] == oldself.data@[j],
                forall|j: int| oldself.data@.len() <= j < self.data@.len() ==> self.data@[j] == 0,
            decreases s - k,
        {
            self.data.push(0);
            k = k + 1;
        }
        self.len = self.len + 1;
        proof {
            let sz = T::size_spec();
            let oldlen = oldself.len as int;
            assert(oldlen * sz + sz == (oldlen + 1) * sz) by (nonlinear_arith);
            assert(oldlen * sz >= 0) by (nonlinear_arith)
                requires 0 <= oldlen, 0 <= sz,
            ;
            assert forall|j: int| 0 <= j < (oldlen + 1) * sz implies #[trigger] self.data@[j] == (
            oldself.payload() + zero_record(sz))[j] by {
                if j < oldlen * sz {
                    assert(self.data@[j] == oldself.data@[j]);
                } else if j < oldself.data@.len() {
                    assert(self.data@[j] == oldself.data@[j]);
                    assert(oldself.data@[j] == 0);
                } else {
                    assert(self.data@[j] == 0);
                }
            }
            assert(self.payload() =~= oldself.payload() + zero_record(sz));
            assert forall|j: int| (oldlen + 1) * sz <= j < self.data@.len() implies #[trigger] self
                .data@[j] == 0u8 by {
                if j < oldself.data@.len() {
                    assert(self.data@[j] == oldself.data@[j]);
                    assert(oldself.data@[j] == 0);
                } else {
                    assert(self.data@[j] == 0);
                }
            }
            assert(self.wf());
            let newp = self.payload();
            let oldp = oldself.payload();
            assert forall|i: int| 0 <= i < oldlen implies self.record_spec(i)
                == oldself.record_spec(i) by {
                assert(0 <= i * sz && (i + 1) * sz <= oldlen * sz) by (nonlinear_arith)
                    requires 0 <= i < oldlen, 1 <= sz,
                ;
                assert(i * sz + sz == (i + 1) * sz) by (nonlinear_arith);
                assert forall|j2: int| 0 <= j2 < sz implies #[trigger] newp[i * sz + j2] == oldp[i
                    * sz + j2] by {}
                assert(self.record_spec(i) =~= oldself.record_spec(i));
            }
            assert(self.record_spec(oldlen) =~= zero_record(sz));
        }
    }

    /// Overwrites record `index` with the bytes of `rec`.  Every other
    /// record keeps its bytes.
    pub fn set(&mut self, index: usize, rec: &T)
        requires
            old(self).wf(),
            index < old(self).len_spec(),
            rec.wf(),
        ensures
            final(self).wf(),
            final(self).len_spec() == old(self).len_spec(),
            final(self).record_spec(index as int) == rec.bytes(),
            forall|i: int|
                0 <= i < old(self).len_spec() && i != index ==> final(self).record_spec(i) == old(self).record_spec(i),
    {
        let s = T::size_in_bytes();
        let ghost oldself = *old(self);
        proof {
            rec.lemma_wf_len();
            assert(0 <= index as int * s && (index + 1) as int * s <= oldself.len as int * s)
                by (nonlinear_arith)
                requires 0 <= index as int, index as int + 1 <= oldself.len as int, 1 <= s,
            ;
            assert(index as int * s + s == (index + 1) as int * s) by (nonlinear_arith);
        }
        let b = rec.as_bytes();
        let n = self.data.len();
        let base = index * s;
        let mut k: usize = 0;
        while k < s
            invariant
                k <= s,
                base == index as int * s,
                base + s <= oldself.len as int * s,
                oldself.data@.len() <= usize::MAX,
                oldself.wf(),
                rec.bytes().len() == s,
                b@ == rec.bytes(),
                s == T::size_spec(),
                self.len == oldself.len,
                self.data@.len() == oldself.data@.len(),
                forall|j: int|
                    0 <= j < self.data@.len() && !(base <= j < base + k) ==> self.data@[j]
                        == oldself.data@[j],
                forall|j: int| base <= j < base + k ==> self.data@[j] == rec.bytes()[j - base],
            decreases s - k,
        {
            self.data[base + k] = b[k];
            k = k + 1;
        }
        proof {
            let sz = T::size_spec();
            let lenint = oldself.len as int;
            assert(lenint * sz <= self.data@.len());
            assert forall|j: int| lenint * sz <= j < self.data@.len() implies #[trigger] self
                .data@[j] == 0u8 by {
                assert(!(base <= j < base + sz));
                assert(self.data@[j] == oldself.data@[j]);
            }
            assert(self.wf());
            assert(self.record_spec(index as int) =~= rec.bytes());
            assert forall|i: int| 0 <= i < lenint && i != index implies self.record_spec(i)
                == oldself.record_spec(i) by {
                assert(0 <= i * sz && (i + 1) * sz <= lenint * sz) by (nonlinear_arith)
                    requires 0 <= i < lenint, 1 <= sz,
                ;
                assert(i < index ==> (i + 1) * sz <= index as int * sz) by (nonlinear_arith)
                    requires i < index ==> i + 1 <= index, 1 <= sz,
                ;
                assert(i > index ==> (index as int + 1) * sz <= i * sz) by (nonlinear_arith)
                    requires i > index ==> index as int + 1 <= i, 1 <= sz,
                ;
                assert(i * sz + sz == (i + 1) * sz) by (nonlinear_arith);
                assert forall|j2: int| 0 <= j2 < sz implies #[trigger] self.data@[i * sz + j2]
                    == oldself.data@[i * sz + j2] by {
                    assert(!(base <= i * sz + j2 < base + sz));
                }
                assert(self.record_spec(i) =~= oldself.record_spec(i));
            }
        }
    }

    /// The record at position `index`.
    pub fn at(&self, index: usize) -> (r: T)
        requires
            self.wf(),
            index < self.len_spec(),
        ensures
            r.wf(),
            r.bytes() == self.record_spec(index as int),
    {
        self.as_view().at(index)
    }
}


/// Active-buffer size past which a streaming container flushes to its
/// resource handle.
pub const FLUSH_THRESHOLD: usize = 33554432;

/// An append-only streaming array of records with bounded memory.
///
/// Records accumulate in an active buffer; when it outgrows
/// [`FLUSH_THRESHOLD`] at the next append, the buffered records are
/// flushed to the resource handle and become inaccessible.  Only the
/// most recently appended record can still be written.  The vector must
/// be closed exactly once, which seals the resource frame and deposits
/// it in the storage it was created in.
pub struct ExternalVector<T, St: ResourceStorage> {
    /// The active buffer: unflushed records, then the zero padding.
    pub data: Vec<u8>,
    /// Number of records ever appended, flushed or not.
    pub len: usize,
    /// The framed sink the records are flushed to.
    pub resource_handle: ResourceHandle<St::Sink>,
    /// The resource name the sealed frame is stored under.
    pub name: String,
    /// Marker tying the container to its record type.
    pub _phantom: core::marker::PhantomData<T>,
}

impl<T: Struct, St: ResourceStorage> ExternalVector<T, St> {
    /// The flushed bytes and the active buffer together hold exactly
    /// `len` records, the padding region is zero, and after the first
    /// append the active buffer still holds the whole last record.
    pub open spec fn wf(&self) -> bool {
        &&& self.resource_handle.wf()
        &&& self.data@.len() >= PADDING_SIZE
        &&& self.resource_handle.written().len() + self.data@.len() - PADDING_SIZE
            == self.len as int * T::size_spec()
        &&& forall|j: int|
            self.data@.len() - PADDING_SIZE <= j < self.data@.len() ==> self.data@[j] == 0
    }

    /// Whether the vector still accepts appends.
    pub open spec fn is_open_spec(&self) -> bool {
        self.resource_handle.is_open_spec()
    }

    /// Number of records ever appended.
    pub open spec fn len_spec(&self) -> int {
        self.len as int
    }

    /// The resource name the vector writes to.
    pub open spec fn name_spec(&self) -> Seq<char> {
        self.name@
    }

    /// The bytes of every record appended so far, flushed or buffered,
    /// in append order.
    pub open spec fn records_bytes(&self) -> Seq<u8> {
        self.resource_handle.written() + self.data@.subrange(
            0,
            self.data@.len() - PADDING_SIZE,
        )
    }

    /// The byte image of record `i`.
    pub open spec fn record_spec(&self, i: int) -> Seq<u8> {
        record_at(self.records_bytes(), T::size_spec(), i)
    }

    /// Creates an empty streaming vector over an open resource handle.
    pub fn new(resource_handle: ResourceHandle<St::Sink>, name: String) -> (r: Self)
        requires
            resource_handle.wf(),
            resource_handle.is_open_spec(),
            resource_handle.written() == Seq::<u8>::empty(),
        ensures
            r.wf(),
            r.is_open_spec(),
            r.len_spec() == 0,
            r.records_bytes() == Seq::<u8>::empty(),
            r.name_spec() == name@,
    {
        let data: Vec<u8> = vec![0u8, 0u8, 0u8, 0u8, 0u8, 0u8, 0u8, 0u8];
        proof {
            assert(data@ =~= seq![0u8, 0u8, 0u8, 0u8, 0u8, 0u8, 0u8, 0u8]);
        }
        let r = ExternalVector {
            data,
            len: 0,
            resource_handle,
            name,
            _phantom: core::marker::PhantomData,
        };
        proof {
            assert(r.records_bytes() =~= Seq::<u8>::empty());
            assert(r.resource_handle.wf());
            assert(r.data@.len() >= PADDING_SIZE);
            assert(r.len == 0);
            assert(r.resource_handle.written().len() == 0);
            assert(r.data@.len() == 8);
            assert(PADDING_SIZE == 8);
            assert(0 as int * T::size_spec() == 0) by (nonlinear_arith);
            assert(r.resource_handle.written().len() + r.data@.len() - PADDING_SIZE == r.len as int
                * T::size_spec());
            assert(forall|j: int|
                r.data@.len() - PADDING_SIZE <= j < r.data@.len() ==> r.data@[j] == 0);
            assert(r.wf());
        }
        r
    }

    /// Number of records ever appended.
    pub fn len(&self) -> (r: usize)
        ensures
            r == self.len_spec(),
    {
        self.len
    }

    /// Whether no record was appended yet.
    pub fn is_empty(&self) -> (r: bool)
        ensures
            r == (self.len_spec() == 0),
    {
        self.len == 0
    }

    /// Whether the vector still accepts appends.
    pub fn is_open(&self) -> (r: bool)
        ensures
            r == self.is_open_spec(),
    {
        self.resource_handle.is_open()
    }

    /// Flushes the buffered records to the resource handle and resets
    /// the active buffer to just the padding.
    fn flush(&mut self) -> (r: Result<(), ResourceStorageError>)
        requires
            old(self).wf(),
        ensures
            final(self).name_spec() == old(self).name_spec(),
            final(self).len == old(self).len,
            r is Ok ==> {
                &&& old(self).is_open_spec()
                &&& final(self).wf()
                &&& final(self).is_open_spec()
                &&& final(self).records_bytes() == old(self).records_bytes()
                &&& final(self).data@.len() == PADDING_SIZE
            },
            r is Err ==> {
                &&& final(self).records_bytes() == old(self).records_bytes()
                &&& final(self).data@ == old(self).data@
                &&& final(self).is_open_spec() == old(self).is_open_spec()
            },
            !old(self).is_open_spec() ==> r is Err,
    {
        let ghost oldself = *old(self);
        let cut = self.data.len() - PADDING_SIZE;
        let chunk = vstd::slice::slice_subrange(self.data.as_slice(), 0, cut);
        let r = self.resource_handle.write(chunk);
        match r {
            Ok(_) => {},
            Err(e) => {
                return Err(e);
            },
        }
        self.data.truncate(0);
        let ghost h1 = self.resource_handle;
        let mut k: usize = 0;
        while k < PADDING_SIZE
            invariant
                k <= PADDING_SIZE,
                self.data@.len() == k,
                self.len == oldself.len,
                self.name == oldself.name,
                self.resource_handle == h1,
                forall|j: int| 0 <= j < k ==> self.data@[j] == 0,
            decreases PADDING_SIZE - k,
        {
            self.data.push(0);
            k = k + 1;
        }
        proof {
            assert(self.records_bytes() =~= oldself.records_bytes());
        }
        Ok(())
    }

    /// Appends one zero-filled record, flushing first if the active
    /// buffer has outgrown the threshold.  Only this newest record can
    /// then be written, through [`Self::set_last`].
    pub fn grow(&mut self) -> (r: Result<(), ResourceStorageError>)
        requires
            old(self).wf(),
            old(self).len < usize::MAX,
            old(self).data@.len() + T::size_spec() <= usize::MAX,
            (old(self).len_spec() + 1) * T::size_spec() + PADDING_SIZE <= usize::MAX,
        ensures
            final(self).name_spec() == old(self).name_spec(),
            r is Ok ==> {
                &&& old(self).is_open_spec()
                &&& final(self).wf()
                &&& final(self).is_open_spec()
                &&& final(self).len_spec() == old(self).len_spec() + 1
                &&& final(self).records_bytes() == old(self).records_bytes() + zero_record(
                    T::size_spec(),
                )
                &&& final(self).data@.len() >= T::size_spec() + PADDING_SIZE
                &&& final(self).data@.len() <= FLUSH_THRESHOLD + T::size_spec() + PADDING_SIZE
            },
            old(self).is_open_spec() && old(self).data@.len() <= FLUSH_THRESHOLD ==> r is Ok,
            !old(self).is_open_spec() ==> r is Err,
            r is Err ==> {
                &&& final(self).len == old(self).len
                &&& final(self).records_bytes() == old(self).records_bytes()
                &&& final(self).is_open_spec() == old(self).is_open_spec()
            },
    {
        if !self.resource_handle.is_open() {
            return Err(
                ResourceStorageError::Io { message: String::from_str("stream closed") },
            );
        }
        if self.data.len() > FLUSH_THRESHOLD {
            let r = self.flush();
            match r {
                Ok(_) => {},
                Err(e) => {
                    return Err(e);
                },
            }
        }
        let ghost before = *self;
        let s = T::size_in_bytes();
        let mut k: usize = 0;
        while k < s
            invariant
                k <= s,
                self.data@.len() == before.data@.len() + k,
                self.len == before.len,
                self.resource_handle == before.resource_handle,
                self.name == before.name,
                forall|j: int| 0 <= j < before.data@.len() ==> self.data@[j] == before.data@[j],
                forall|j: int| before.data@.len() <= j < self.data@.len() ==> self.data@[j] == 0,
            decreases s - k,
        {
            self.data.push(0);
            k = k + 1;
        }
        self.len = self.len + 1;
        proof {
            let sz = T::size_spec();
            let oldlen = before.len as int;
            assert(oldlen * sz + sz == (oldlen + 1) * sz) by (nonlinear_arith);
            assert(oldlen * sz >= 0) by (nonlinear_arith)
                requires 0 <= oldlen, 0 <= sz,
            ;
            let bcut = before.data@.len() - PADDING_SIZE;
            let cut = self.data@.len() - PADDING_SIZE;
            assert forall|j: int| 0 <= j < cut implies #[trigger] self.data@.subrange(0, cut)[j]
                == (before.data@.subrange(0, bcut) + zero_record(sz))[j] by {
                if j < bcut {
                    assert(self.data@[j] == before.data@[j]);
                } else if j < before.data@.len() {
                    assert(self.data@[j] == before.data@[j]);
                    assert(before.data@[j] == 0);
                } else {
                    assert(self.data@[j] == 0);
                }
            }
            assert(self.data@.subrange(0, cut) =~= before.data@.subrange(0, bcut) + zero_record(
                sz,
            ));
            assert(self.records_bytes() =~= before.records_bytes() + zero_record(sz));
            assert(before.records_bytes() == old(self).records_bytes());
            assert forall|j: int| cut <= j < self.data@.len() implies self.data@[j] == 0u8 by {
                if j < before.data@.len() {
                    assert(self.data@[j] == before.data@[j]);
                    assert(before.data@[j] == 0);
                } else {
                    assert(self.data@[j] == 0);
                }
            }
            assert(self.wf());
        }
        Ok(())
    }

    /// Overwrites the most recently appended record, the only one still
    /// guaranteed to live in the active buffer.
    pub fn set_last(&mut self, rec: &T)
        requires
            old(self).wf(),
            old(self).is_open_spec(),
            old(self).len > 0,
            old(self).data@.len() >= T::size_spec() + PADDING_SIZE,
            rec.wf(),
        ensures
            final(self).wf(),
            final(self).is_open_spec(),
            final(self).len == old(self).len,
            final(self).data@.len() == old(self).data@.len(),
            final(self).name_spec() == old(self).name_spec(),
            final(self).records_bytes() == old(self).records_bytes().subrange(
                0,
                old(self).records_bytes().len() - T::size_spec(),
            ) + rec.bytes(),
            final(self).record_spec(old(self).len_spec() - 1) == rec.bytes(),
            forall|i: int|
                0 <= i < old(self).len_spec() - 1 ==> final(self).record_spec(i) == old(self).record_spec(i),
    {
        let ghost oldself = *old(self);
        let s = T::size_in_bytes();
        proof {
            rec.lemma_wf_len();
        }
        let b = rec.as_bytes();
        let n = self.data.len();
        let base = n - PADDING_SIZE - s;
        let mut k: usize = 0;
        while k < s
            invariant
                k <= s,
                s == T::size_spec(),
                base + s + PADDING_SIZE == self.data@.len(),
                self.data@.len() <= usize::MAX,
                oldself.wf(),
                self.len == oldself.len,
                self.name == oldself.name,
                self.resource_handle == oldself.resource_handle,
                self.data@.len() == oldself.data@.len(),
                b@ == rec.bytes(),
                rec.bytes().len() == s,
                forall|j: int|
                    0 <= j < self.data@.len() && !(base <= j < base + k) ==> self.data@[j]
                        == oldself.data@[j],
                forall|j: int| base <= j < base + k ==> self.data@[j] == rec.bytes()[j - base],
            decreases s - k,
        {
            self.data[base + k] = b[k];
            k = k + 1;
        }
        proof {
            let sz = T::size_spec();
            let total = oldself.records_bytes().len() as int;
            let w = oldself.resource_handle.written().len() as int;
            assert forall|j: int|
                self.data@.len() - PADDING_SIZE <= j < self.data@.len() implies self.data@[j]
                == 0u8 by {
                assert(!(base <= j < base + sz));
                assert(self.data@[j] == oldself.data@[j]);
            }
            assert(self.wf());
            assert(self.records_bytes().len() == total);
            assert(self.records_bytes() =~= oldself.records_bytes().subrange(0, total - sz)
                + rec.bytes()) by {
                assert forall|j: int| 0 <= j < total implies self.records_bytes()[j] == (
                oldself.records_bytes().subrange(0, total - sz) + rec.bytes())[j] by {
                    if j < w {
                    } else if j < total - sz {
                        assert(self.data@[j - w] == oldself.data@[j - w]);
                    } else {
                        assert(self.data@[j - w] == rec.bytes()[j - w - base]);
                    }
                }
            }
            assert forall|j: int|
                self.data@.len() - PADDING_SIZE <= j < self.data@.len() implies self.data@[j]
                == 0u8 by {
                assert(!(base <= j < base + sz));
                assert(self.data@[j] == oldself.data@[j]);
            }
            assert(self.wf());
            let lenm = oldself.len as int - 1;
            assert((lenm + 1) * sz == lenm * sz + sz && lenm * sz >= 0) by (nonlinear_arith)
                requires 0 <= lenm, 1 <= sz,
            ;
            assert(self.record_spec(lenm) =~= rec.bytes());
            let newr = self.records_bytes();
            let oldr = oldself.records_bytes();
            assert forall|i: int| 0 <= i < lenm implies self.record_spec(i)
                == oldself.record_spec(i) by {
                assert(0 <= i * sz && (i + 1) * sz <= lenm * sz && i * sz + sz == (i + 1) * sz)
                    by (nonlinear_arith)
                    requires 0 <= i < lenm, 1 <= sz,
                ;
                assert forall|j2: int| 0 <= j2 < sz implies #[trigger] newr[i * sz + j2] == oldr[i
                    * sz + j2] by {
                    assert(i * sz + j2 < total - sz);
                    assert(newr[i * sz + j2] == oldr.subrange(0, total - sz)[i * sz + j2]);
                }
                assert(self.record_spec(i) =~= oldself.record_spec(i));
            }
        }
    }

    /// The most recently appended record.
    pub fn last(&self) -> (r: T)
        requires
            self.wf(),
            self.len > 0,
            self.data@.len() >= T::size_spec() + PADDING_SIZE,
        ensures
            r.wf(),
            r.bytes() == self.record_spec(self.len_spec() - 1),
    {
        let s = T::size_in_bytes();
        let n = self.data.len();
        let base = n - PADDING_SIZE - s;
        let chunk = vstd::slice::slice_subrange(self.data.as_slice(), 0, n - PADDING_SIZE);
        let ghost total = self.records_bytes().len() as int;
        let r = T::from_bytes(vstd::slice::slice_subrange(chunk, base, base + s));
        proof {
            let sz = T::size_spec();
            let lenm = self.len as int - 1;
            assert(lenm * sz + sz == total) by (nonlinear_arith)
                requires total == (lenm + 1) * sz,
            ;
            assert(r.bytes() =~= self.record_spec(lenm));
        }
        r
    }

    /// Flushes the remaining records, seals the resource frame, and
    /// stores it in the storage under this vector's name.  After this
    /// the vector accepts no more appends; closing twice is an error.
    pub fn close(&mut self, storage: &mut St) -> (r: Result<(), ResourceStorageError>)
        requires
            old(self).wf(),
        ensures
            final(self).len == old(self).len,
            r is Ok ==> {
                let key = old(storage).full_key(old(self).name_spec());
                &&& old(self).is_open_spec()
                &&& !final(self).is_open_spec()
                &&& final(storage).model().frozen == old(storage).model().frozen
                &&& final(storage).model().resources.dom() == old(storage).model().resources.dom().insert(key)
                &&& is_framed(
                    final(storage).model().resources[key],
                    old(self).records_bytes(),
                )
                &&& forall|k: Seq<char>|
                    k != key && old(storage).model().resources.dom().contains(k) ==> final(storage).model().resources[k] == old(storage).model().resources[k]
            },
            forall|n: Seq<char>| final(storage).full_key(n) == old(storage).full_key(n),
            r is Err ==> final(storage).model() == old(storage).model(),
            !old(self).is_open_spec() ==> r is Err,
    {
        let r = self.flush();
        match r {
            Ok(_) => {},
            Err(e) => {
                return Err(e);
            },
        }
        let sink = match self.resource_handle.close() {
            Ok(s) => s,
            Err(e) => {
                return Err(e);
            },
        };
        let r = storage.store_stream(self.name.as_str(), sink);
        proof {
            if r is Ok {
                assert(final(storage).model().resources.dom() =~= old(storage).model().resources.dom().insert(old(storage).full_key(old(self).name_spec())));
            }
        }
        r
    }
}

/// Creates a streaming vector writing to the resource `resource_name`
/// in the given storage: stores the schema companion at once, and binds
/// the vector to a fresh framed sink for the records.
pub fn create_external_vector<T: Struct, St: ResourceStorage>(
    storage: &mut St,
    resource_name: &str,
    schema: &str,
) -> (r: Result<ExternalVector<T, St>, ResourceStorageError>)
    ensures
        forall|n: Seq<char>| final(storage).full_key(n) == old(storage).full_key(n),
        r matches Ok(v) ==> {
            let skey = old(storage).full_key(resource_name@ + ".schema"@);
            &&& v.wf()
            &&& v.is_open_spec()
            &&& v.len_spec() == 0
            &&& v.records_bytes() == Seq::<u8>::empty()
            &&& v.name_spec() == resource_name@
            &&& final(storage).model().frozen == old(storage).model().frozen
            &&& final(storage).model().resources.dom() == old(storage).model().resources.dom().insert(skey)
            &&& final(storage).model().resources[skey] == schema.spec_bytes()
            &&& forall|k: Seq<char>|
                k != skey && old(storage).model().resources.dom().contains(k) ==> final(storage).model().resources[k] == old(storage).model().resources[k]
        },
{
    let schema_name = String::from_str(resource_name).concat(".schema");
    let mut sink = storage.create_output_stream(schema_name.as_str())?;
    let r = crate::storage::write_schema(schema, &mut sink);
    match r {
        Ok(_) => {},
        Err(e) => {
            return Err(e);
        },
    }
    proof {
        assert(sink.content() =~= schema.spec_bytes());
    }
    storage.store_stream(schema_name.as_str(), sink)?;
    let data_sink = storage.create_output_stream(resource_name)?;
    let handle = ResourceHandle::new(data_sink)?;
    proof {
        assert(final(storage).model().resources.dom() =~= old(storage).model().resources.dom().insert(old(storage).full_key(resource_name@ + ".schema"@)));
    }
    Ok(ExternalVector::new(handle, String::from_str(resource_name)))
}


/// An append-only streaming array that sorts its records when closed.
///
/// Appended records accumulate like in [`ExternalVector`], but flush to
/// ephemeral scratch storage instead of the final sink.  Closing sorts
/// the scratch contents by the record type's order and streams the
/// sorted records into the final resource frame.
pub struct SortedExternalVector<T, St: ResourceStorage> {
    /// The active buffer: unflushed records, then the zero padding.
    pub data: Vec<u8>,
    /// Number of records ever appended, flushed or not.
    pub len: usize,
    /// Scratch storage holding the flushed, not yet sorted records.
    pub scratch: Vec<u8>,
    /// The framed sink the sorted records are written to at close.
    pub resource_handle: ResourceHandle<St::Sink>,
    /// The resource name the sealed frame is stored under.
    pub name: String,
    /// Marker tying the container to its record type.
    pub _phantom: core::marker::PhantomData<T>,
}

impl<T: SortableStruct, St: ResourceStorage> SortedExternalVector<T, St> {
    /// The scratch and the active buffer together hold exactly `len`
    /// records, the final sink is still untouched, and the padding
    /// region is zero.
    pub open spec fn wf(&self) -> bool {
        &&& self.resource_handle.wf()
        &&& self.resource_handle.written() == Seq::<u8>::empty()
        &&& self.data@.len() >= PADDING_SIZE
        &&& self.scratch@.len() + self.data@.len() - PADDING_SIZE == self.len as int
            * T::size_spec()
        &&& forall|j: int|
            self.data@.len() - PADDING_SIZE <= j < self.data@.len() ==> self.data@[j] == 0
    }

    /// Whether the vector still accepts appends.
    pub open spec fn is_open_spec(&self) -> bool {
        self.resource_handle.is_open_spec()
    }

    /// Number of records ever appended.
    pub open spec fn len_spec(&self) -> int {
        self.len as int
    }

    /// The resource name the vector writes to.
    pub open spec fn name_spec(&self) -> Seq<char> {
        self.name@
    }

    /// The bytes of every record appended so far, in append order.
    pub open spec fn records_bytes(&self) -> Seq<u8> {
        self.scratch@ + self.data@.subrange(0, self.data@.len() - PADDING_SIZE)
    }

    /// Creates an empty sorted streaming vector over an open resource
    /// handle.
    pub fn new(resource_handle: ResourceHandle<St::Sink>, name: String) -> (r: Self)
        requires
            resource_handle.wf(),
            resource_handle.is_open_spec(),
            resource_handle.written() == Seq::<u8>::empty(),
        ensures
            r.wf(),
            r.is_open_spec(),
            r.len_spec() == 0,
            r.records_bytes() == Seq::<u8>::empty(),
            r.name_spec() == name@,
    {
        let data: Vec<u8> = vec![0u8, 0u8, 0u8, 0u8, 0u8, 0u8, 0u8, 0u8];
        proof {
            assert(data@ =~= seq![0u8, 0u8, 0u8, 0u8, 0u8, 0u8, 0u8, 0u8]);
        }
        let r = SortedExternalVector {
            data,
            len: 0,
            scratch: Vec::new(),
            resource_handle,
            name,
            _phantom: core::marker::PhantomData,
        };
        proof {
            assert(r.records_bytes() =~= Seq::<u8>::empty());
            assert(0 as int * T::size_spec() == 0) by (nonlinear_arith);
            assert(r.wf());
        }
        r
    }

    /// Number of records ever appended.
    pub fn len(&self) -> (r: usize)
        ensures
            r == self.len_spec(),
    {
        self.len
    }

    /// Whether no record was appended yet.
    pub fn is_empty(&self) -> (r: bool)
        ensures
            r == (self.len_spec() == 0),
    {
        self.len == 0
    }

    /// Whether the vector still accepts appends.
    pub fn is_open(&self) -> (r: bool)
        ensures
            r == self.is_open_spec(),
    {
        self.resource_handle.is_open()
    }

    /// Moves the buffered records into the scratch storage and resets
    /// the active buffer to just the padding.
    fn flush(&mut self)
        requires
            old(self).wf(),
        ensures
            final(self).wf(),
            final(self).is_open_spec() == old(self).is_open_spec(),
            final(self).len == old(self).len,
            final(self).name_spec() == old(self).name_spec(),
            final(self).records_bytes() == old(self).records_bytes(),
            final(self).data@.len() == PADDING_SIZE,
            final(self).resource_handle == old(self).resource_handle,
    {
        let ghost oldself = *old(self);
        let cut = self.data.len() - PADDING_SIZE;
        let chunk = vstd::slice::slice_subrange(self.data.as_slice(), 0, cut);
        self.scratch.extend_from_slice(chunk);
        self.data.truncate(0);
        let ghost h1 = self.resource_handle;
        let mut k: usize = 0;
        while k < PADDING_SIZE
            invariant
                k <= PADDING_SIZE,
                self.data@.len() == k,
                self.len == oldself.len,
                self.name == oldself.name,
                self.scratch == self.scratch,
                self.scratch@ == oldself.records_bytes(),
                self.resource_handle == h1,
                forall|j: int| 0 <= j < k ==> self.data@[j] == 0,
            decreases PADDING_SIZE - k,
        {
            self.data.push(0);
            k = k + 1;
        }
        proof {
            assert(self.records_bytes() =~= oldself.records_bytes());
        }
    }

    /// Appends one zero-filled record, flushing to scratch first if the
    /// active buffer has outgrown the threshold.  Only this newest
    /// record can then be written, through [`Self::set_last`].
    pub fn grow(&mut self) -> (r: Result<(), ResourceStorageError>)
        requires
            old(self).wf(),
            old(self).len < usize::MAX,
            old(self).data@.len() + T::size_spec() <= usize::MAX,
            old(self).scratch@.len() + old(self).data@.len() <= usize::MAX,
            (old(self).len_spec() + 1) * T::size_spec() + PADDING_SIZE <= usize::MAX,
        ensures
            r is Ok,
            final(self).wf(),
            final(self).is_open_spec() == old(self).is_open_spec(),
            final(self).name_spec() == old(self).name_spec(),
            final(self).len_spec() == old(self).len_spec() + 1,
            final(self).records_bytes() == old(self).records_bytes() + zero_record(
                T::size_spec(),
            ),
            final(self).data@.len() >= T::size_spec() + PADDING_SIZE,
            final(self).data@.len() <= FLUSH_THRESHOLD + T::size_spec() + PADDING_SIZE,
    {
        if self.data.len() > FLUSH_THRESHOLD {
            self.flush();
        }
        let ghost before = *self;
        let s = T::size_in_bytes();
        let mut k: usize = 0;
        while k < s
            invariant
                k <= s,
                self.data@.len() == before.data@.len() + k,
                self.len == before.len,
                self.scratch == before.scratch,
                self.resource_handle == before.resource_handle,
                self.name == before.name,
                forall|j: int| 0 <= j < before.data@.len() ==> self.data@[j] == before.data@[j],
                forall|j: int| before.data@.len() <= j < self.data@.len() ==> self.data@[j] == 0,
            decreases s - k,
        {
            self.data.push(0);
            k = k + 1;
        }
        self.len = self.len + 1;
        proof {
            let sz = T::size_spec();
            let oldlen = before.len as int;
            assert(oldlen * sz + sz == (oldlen + 1) * sz) by (nonlinear_arith);
            assert(oldlen * sz >= 0) by (nonlinear_arith)
                requires 0 <= oldlen, 0 <= sz,
            ;
            let bcut = before.data@.len() - PADDING_SIZE;
            let cut = self.data@.len() - PADDING_SIZE;
            assert forall|j: int| 0 <= j < cut implies #[trigger] self.data@.subrange(0, cut)[j]
                == (before.data@.subrange(0, bcut) + zero_record(sz))[j] by {
                if j < bcut {
                    assert(self.data@[j] == before.data@[j]);
                } else if j < before.data@.len() {
                    assert(self.data@[j] == before.data@[j]);
                    assert(before.data@[j] == 0);
                } else {
                    assert(self.data@[j] == 0);
                }
            }
            assert(self.data@.subrange(0, cut) =~= before.data@.subrange(0, bcut) + zero_record(
                sz,
            ));
            assert(self.records_bytes() =~= before.records_bytes() + zero_record(sz));
            assert(before.records_bytes() == old(self).records_bytes());
            assert forall|j: int| cut <= j < self.data@.len() implies self.data@[j] == 0u8 by {
                if j < before.data@.len() {
                    assert(self.data@[j] == before.data@[j]);
                    assert(before.data@[j] == 0);
                } else {
                    assert(self.data@[j] == 0);
                }
            }
            assert(self.wf());
        }
        Ok(())
    }

    /// Overwrites the most recently appended record, the only one still
    /// guaranteed to live in the active buffer.
    pub fn set_last(&mut self, rec: &T)
        requires
            old(self).wf(),
            old(self).len > 0,
            old(self).data@.len() >= T::size_spec() + PADDING_SIZE,
            rec.wf(),
        ensures
            final(self).wf(),
            final(self).is_open_spec() == old(self).is_open_spec(),
            final(self).len == old(self).len,
            final(self).name_spec() == old(self).name_spec(),
            final(self).data@.len() == old(self).data@.len(),
            final(self).records_bytes() == old(self).records_bytes().subrange(
                0,
                old(self).records_bytes().len() - T::size_spec(),
            ) + rec.bytes(),
    {
        let ghost oldself = *old(self);
        let s = T::size_in_bytes();
        proof {
            rec.lemma_wf_len();
        }
        let b = rec.as_bytes();
        let n = self.data.len();
        let base = n - PADDING_SIZE - s;
        let mut k: usize = 0;
        while k < s
            invariant
                k <= s,
                s == T::size_spec(),
                base + s + PADDING_SIZE == self.data@.len(),
                self.data@.len() <= usize::MAX,
                oldself.wf(),
                self.len == oldself.len,
                self.name == oldself.name,
                self.scratch == oldself.scratch,
                self.resource_handle == oldself.resource_handle,
                self.data@.len() == oldself.data@.len(),
                b@ == rec.bytes(),
                rec.bytes().len() == s,
                forall|j: int|
                    0 <= j < self.data@.len() && !(base <= j < base + k) ==> self.data@[j]
                        == oldself.data@[j],
                forall|j: int| base <= j < base + k ==> self.data@[j] == rec.bytes()[j - base],
            decreases s - k,
        {
            self.data[base + k] = b[k];
            k = k + 1;
        }
        proof {
            let sz = T::size_spec();
            let total = oldself.records_bytes().len() as int;
            let w = oldself.scratch@.len() as int;
            assert forall|j: int|
                self.data@.len() - PADDING_SIZE <= j < self.data@.len() implies self.data@[j]
                == 0u8 by {
                assert(!(base <= j < base + sz));
                assert(self.data@[j] == oldself.data@[j]);
            }
            assert(self.wf());
            assert(self.records_bytes().len() == total);
            assert(self.records_bytes() =~= oldself.records_bytes().subrange(0, total - sz)
                + rec.bytes()) by {
                assert forall|j: int| 0 <= j < total implies self.records_bytes()[j] == (
                oldself.records_bytes().subrange(0, total - sz) + rec.bytes())[j] by {
                    if j < w {
                    } else if j < total - sz {
                        assert(self.data@[j - w] == oldself.data@[j - w]);
                    } else {
                        assert(self.data@[j - w] == rec.bytes()[j - w - base]);
                    }
                }
            }
        }
    }

    /// Flushes the remaining records to scratch, sorts the scratch by
    /// the record type's order, writes the sorted records into the
    /// final resource frame, seals it, and stores it under this
    /// vector's name.
    ///
    /// The stored payload holds exactly the appended records, reordered:
    /// every neighbouring pair is ordered by the record order, and the
    /// multiset of record byte images is preserved.  A pair of
    /// incomparable records is a fatal error, as is closing twice.
    pub fn sort_and_close(&mut self, storage: &mut St) -> (r: Result<(), ResourceStorageError>)
        requires
            old(self).wf(),
        ensures
            r is Ok ==> {
                let key = old(storage).full_key(old(self).name_spec());
                let sz = T::size_spec();
                let sorted = crate::sort::records_of(
                    crate::storage::frame_payload(final(storage).model().resources[key]),
                    sz,
                );
                &&& old(self).is_open_spec()
                &&& !final(self).is_open_spec()
                &&& final(storage).model().frozen == old(storage).model().frozen
                &&& final(storage).model().resources.dom() == old(storage).model().resources.dom().insert(key)
                &&& crate::storage::is_framed(
                    final(storage).model().resources[key],
                    crate::storage::frame_payload(final(storage).model().resources[key]),
                )
                &&& crate::storage::frame_payload(
                    final(storage).model().resources[key],
                ).len() == old(self).records_bytes().len()
                &&& crate::sort::sorted_by::<T>(sorted)
                &&& sorted.to_multiset() == crate::sort::records_of(
                    old(self).records_bytes(),
                    sz,
                ).to_multiset()
                &&& forall|k: Seq<char>|
                    k != key && old(storage).model().resources.dom().contains(k) ==> final(storage).model().resources[k] == old(storage).model().resources[k]
                &&& forall|n: Seq<char>| final(storage).full_key(n) == old(storage).full_key(n)
            },
            !old(self).is_open_spec() ==> r is Err,
            (r matches Err(e) && e matches ResourceStorageError::IncomparableRecords)
                ==> crate::sort::has_incomparable_pair::<T>(
                crate::sort::records_of(old(self).records_bytes(), T::size_spec()),
            ),
            r is Err ==> {
                &&& final(self).len == old(self).len
                &&& final(storage).model() == old(storage).model()
            },
            forall|n: Seq<char>| final(storage).full_key(n) == old(storage).full_key(n),
    {
        self.flush();
        proof {
            T::lemma_size_pos();
            let sz = T::size_spec();
            let lenint = self.len as int;
            assert(lenint * sz >= 0) by (nonlinear_arith)
                requires 0 <= lenint, 1 <= sz,
            ;
            vstd::arithmetic::div_mod::lemma_fundamental_div_mod_converse(
                self.scratch@.len() as int,
                sz,
                lenint,
                0,
            );
        }
        let sorted = match crate::sort::sort_record_bytes::<T>(self.scratch.as_slice()) {
            Ok(v) => v,
            Err(e) => {
                proof {
                    assert(self.records_bytes() =~= self.scratch@);
                }
                return Err(e);
            },
        };
        let ghost presort = self.records_bytes();
        // a sink's own failure must not masquerade as an ordering failure
        match self.resource_handle.write(sorted.as_slice()) {
            Ok(_) => {},
            Err(ResourceStorageError::IncomparableRecords) => {
                return Err(ResourceStorageError::Io { message: String::from_str("sink failure") });
            },
            Err(e) => {
                return Err(e);
            },
        }
        let sink = match self.resource_handle.close() {
            Ok(s) => s,
            Err(ResourceStorageError::IncomparableRecords) => {
                return Err(ResourceStorageError::Io { message: String::from_str("sink failure") });
            },
            Err(e) => {
                return Err(e);
            },
        };
        let r = match storage.store_stream(self.name.as_str(), sink) {
            Ok(_) => Ok(()),
            Err(ResourceStorageError::IncomparableRecords) => {
                return Err(ResourceStorageError::Io { message: String::from_str("sink failure") });
            },
            Err(e) => {
                return Err(e);
            },
        };
        proof {
            if r is Ok {
                let key = old(storage).full_key(old(self).name_spec());
                assert(final(storage).model().resources.dom() =~= old(storage).model().resources.dom().insert(key));
                let c = final(storage).model().resources[key];
                crate::storage::lemma_framed_reads_back(c, sorted@);
                assert(presort =~= old(self).records_bytes());
            }
        }
        r
    }
}

/// Creates a sorted streaming vector writing to the resource
/// `resource_name` in the given storage: stores the schema companion at
/// once, and binds the vector to a fresh framed sink for the sorted
/// records.
pub fn create_sorted_external_vector<T: SortableStruct, St: ResourceStorage>(
    storage: &mut St,
    resource_name: &str,
    schema: &str,
) -> (r: Result<SortedExternalVector<T, St>, ResourceStorageError>)
    ensures
        forall|n: Seq<char>| final(storage).full_key(n) == old(storage).full_key(n),
        r matches Ok(v) ==> {
            let skey = old(storage).full_key(resource_name@ + ".schema"@);
            &&& v.wf()
            &&& v.is_open_spec()
            &&& v.len_spec() == 0
            &&& v.records_bytes() == Seq::<u8>::empty()
            &&& v.name_spec() == resource_name@
            &&& final(storage).model().frozen == old(storage).model().frozen
            &&& final(storage).model().resources.dom() == old(storage).model().resources.dom().insert(skey)
            &&& final(storage).model().resources[skey] == schema.spec_bytes()
            &&& forall|k: Seq<char>|
                k != skey && old(storage).model().resources.dom().contains(k) ==> final(storage).model().resources[k] == old(storage).model().resources[k]
        },
{
    let schema_name = String::from_str(resource_name).concat(".schema");
    let mut sink = storage.create_output_stream(schema_name.as_str())?;
    let r = crate::storage::write_schema(schema, &mut sink);
    match r {
        Ok(_) => {},
        Err(e) => {
            return Err(e);
        },
    }
    proof {
        assert(sink.content() =~= schema.spec_bytes());
    }
    storage.store_stream(schema_name.as_str(), sink)?;
    let data_sink = storage.create_output_stream(resource_name)?;
    let handle = ResourceHandle::new(data_sink)?;
    proof {
        assert(final(storage).model().resources.dom() =~= old(storage).model().resources.dom().insert(old(storage).full_key(resource_name@ + ".schema"@)));
    }
    Ok(SortedExternalVector::new(handle, String::from_str(resource_name)))
}

} // verus!
