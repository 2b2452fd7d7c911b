//! The write side of the indexed container of heterogeneous buckets.
//!
//! A multivector stores, per logical item, zero or more tagged variant
//! payloads.  The data stream is the concatenation of the buckets; the
//! index stream holds one entry per item with the cumulative data offset
//! at which the item's bucket starts, plus one trailing sentinel entry
//! closing the last bucket.

use crate::arrayview::record_at;
use crate::error::ResourceStorageError;
use crate::records::{IndexStruct, Struct, VariadicStruct};
use crate::storage::{frame_payload, is_framed, ResourceHandle, ResourceStorage, Stream};
use crate::vector::{ExternalVector, FLUSH_THRESHOLD};
use crate::PADDING_SIZE;
use vstd::prelude::*;
use vstd::string::{StringExecFns, StringSliceAdditionalSpecFns};

verus! {

/// The cumulative data offset at which bucket `i` starts: the total
/// size of the buckets before it.  At `i == buckets.len()` this is the
/// total data size, the value of the sentinel index entry.
pub open spec fn bucket_offset(buckets: Seq<Seq<u8>>, i: int) -> int {
    buckets.take(i).flatten().len() as int
}

/// One more bucket moves the offset by exactly that bucket's size.
pub proof fn lemma_bucket_offset_step(buckets: Seq<Seq<u8>>, i: int)
    requires
        0 <= i < buckets.len(),
    ensures
        bucket_offset(buckets, i + 1) == bucket_offset(buckets, i) + buckets[i].len(),
{
    let t = buckets.take(i + 1);
    assert(t.drop_last() =~= buckets.take(i));
    assert(t.last() == buckets[i]);
    t.lemma_flatten_and_flatten_alt_are_equivalent();
    buckets.take(i).lemma_flatten_and_flatten_alt_are_equivalent();
    assert(t.flatten_alt() == t.drop_last().flatten_alt() + t.last());
}

/// An item with no values appended occupies no data: its two index
/// offsets coincide.  And conversely: an item whose index offsets
/// coincide holds no bytes, so iterating it yields nothing.
pub proof fn lemma_empty_bucket(buckets: Seq<Seq<u8>>, i: int)
    requires
        0 <= i < buckets.len(),
    ensures
        (buckets[i].len() == 0) == (bucket_offset(buckets, i + 1) == bucket_offset(buckets, i)),
{
    lemma_bucket_offset_step(buckets, i);
}

/// Bucket offsets never decrease.
pub proof fn lemma_bucket_offset_monotone(buckets: Seq<Seq<u8>>, i: int, j: int)
    requires
        0 <= i <= j <= buckets.len(),
    ensures
        bucket_offset(buckets, i) <= bucket_offset(buckets, j),
    decreases j - i,
{
    if i < j {
        lemma_bucket_offset_monotone(buckets, i, j - 1);
        lemma_bucket_offset_step(buckets, j - 1);
    }
}

/// Buckets already written keep their offsets when a bucket is appended.
pub proof fn lemma_bucket_offset_push(buckets: Seq<Seq<u8>>, e: Seq<u8>, i: int)
    requires
        0 <= i <= buckets.len(),
    ensures
        bucket_offset(buckets.push(e), i) == bucket_offset(buckets, i),
{
    assert(buckets.push(e).take(i) =~= buckets.take(i));
}

/// Buckets before the last keep their offsets when the last one grows.
pub proof fn lemma_bucket_offset_update_last(buckets: Seq<Seq<u8>>, v: Seq<u8>, i: int)
    requires
        buckets.len() > 0,
        0 <= i < buckets.len(),
    ensures
        bucket_offset(buckets.update(buckets.len() - 1, v), i) == bucket_offset(buckets, i),
{
    assert(buckets.update(buckets.len() - 1, v).take(i) =~= buckets.take(i));
}

/// The whole data stream is the last bucket appended to the rest.
pub proof fn lemma_flatten_update_last(buckets: Seq<Seq<u8>>, v: Seq<u8>)
    requires
        buckets.len() > 0,
    ensures
        buckets.update(buckets.len() - 1, v).flatten() == buckets.take(
            buckets.len() - 1,
        ).flatten() + v,
{
    let t = buckets.update(buckets.len() - 1, v);
    assert(t.drop_last() =~= buckets.take(buckets.len() - 1));
    assert(t.last() == v);
    t.lemma_flatten_and_flatten_alt_are_equivalent();
    buckets.take(buckets.len() - 1).lemma_flatten_and_flatten_alt_are_equivalent();
    assert(t.flatten_alt() == t.drop_last().flatten_alt() + t.last());
}

/// The whole data stream ends with the last bucket.
pub proof fn lemma_flatten_last(buckets: Seq<Seq<u8>>)
    requires
        buckets.len() > 0,
    ensures
        buckets.flatten() == buckets.take(buckets.len() - 1).flatten() + buckets.last(),
{
    assert(buckets.update(buckets.len() - 1, buckets.last()) =~= buckets);
    lemma_flatten_update_last(buckets, buckets.last());
}

/// A container for writing an indexed sequence of heterogeneous,
/// possibly empty, possibly multi-valued item buckets.
///
/// `grow` opens a new bucket and writes its start offset into the index;
/// `add` appends one tagged variant payload to the bucket opened last.
/// Data flushes to storage like an [`ExternalVector`]'s; `close` writes
/// the sentinel index entry, seals both streams, and stores them.
pub struct MultiVector<Idx, Ts, St: ResourceStorage> {
    /// The index stream: one entry per bucket, sentinel at close.
    pub index: ExternalVector<Idx, St>,
    /// The active data buffer: unflushed bucket bytes, then padding.
    pub data: Vec<u8>,
    /// The framed sink the bucket data is flushed to.
    pub data_handle: ResourceHandle<St::Sink>,
    /// The resource name the sealed data frame is stored under.
    pub name: String,
    /// Number of data bytes flushed so far.
    pub size_flushed: usize,
    /// The buckets appended so far, by their byte images.
    pub buckets: Ghost<Seq<Seq<u8>>>,
    /// Marker tying the container to its variant family.
    pub _phantom: core::marker::PhantomData<Ts>,
}

impl<Idx: IndexStruct, Ts: VariadicStruct, St: ResourceStorage> MultiVector<Idx, Ts, St> {
    /// The data-side invariant: the flushed bytes and the active buffer
    /// hold exactly the bucket bytes, and the padding region is zero.
    pub open spec fn data_wf(&self) -> bool {
        &&& self.data_handle.wf()
        &&& self.data@.len() >= PADDING_SIZE
        &&& self.size_flushed as int == self.data_handle.written().len()
        &&& self.data_handle.written() + self.data@.subrange(
            0,
            self.data@.len() - PADDING_SIZE,
        ) == self.buckets@.flatten()
        &&& forall|j: int|
            self.data@.len() - PADDING_SIZE <= j < self.data@.len() ==> self.data@[j] == 0
    }

    /// The whole invariant: the data side holds the bucket bytes, and
    /// the index stream holds one entry per bucket with its start
    /// offset.
    pub open spec fn wf(&self) -> bool {
        &&& self.data_wf()
        &&& self.index.wf()
        &&& self.index.is_open_spec() == self.data_handle.is_open_spec()
        &&& self.index.len_spec() == self.buckets@.len()
        &&& self.index.name_spec() != self.name@
        &&& forall|i: int|
            0 <= i < self.buckets@.len() ==> Idx::value_of(
                #[trigger] record_at(self.index.records_bytes(), Idx::size_spec(), i),
            ) == bucket_offset(self.buckets@, i)
    }

    /// Whether the multivector still accepts items.
    pub open spec fn is_open_spec(&self) -> bool {
        self.data_handle.is_open_spec()
    }

    /// The buckets appended so far.
    pub open spec fn buckets_spec(&self) -> Seq<Seq<u8>> {
        self.buckets@
    }

    /// Number of buckets opened so far.
    pub open spec fn len_spec(&self) -> int {
        self.buckets@.len() as int
    }

    /// The resource name the bucket data is stored under.
    pub open spec fn name_spec(&self) -> Seq<char> {
        self.name@
    }

    /// Creates an empty multivector over an index stream and a data
    /// sink.
    pub fn new(index: ExternalVector<Idx, St>, data_handle: ResourceHandle<St::Sink>, name: String) -> (r:
        Self)
        requires
            index.wf(),
            index.is_open_spec(),
            index.len_spec() == 0,
            index.records_bytes() == Seq::<u8>::empty(),
            data_handle.wf(),
            data_handle.is_open_spec(),
            data_handle.written() == Seq::<u8>::empty(),
            index.name_spec() != name@,
        ensures
            r.wf(),
            r.is_open_spec(),
            r.len_spec() == 0,
            r.buckets_spec() == Seq::<Seq<u8>>::empty(),
            r.name_spec() == name@,
            r.index.name_spec() == index.name_spec(),
    {
        let data: Vec<u8> = vec![0u8, 0u8, 0u8, 0u8, 0u8, 0u8, 0u8, 0u8];
        proof {
            assert(data@ =~= seq![0u8, 0u8, 0u8, 0u8, 0u8, 0u8, 0u8, 0u8]);
        }
        let r = MultiVector {
            index,
            data,
            data_handle,
            name,
            size_flushed: 0,
            buckets: Ghost(Seq::empty()),
            _phantom: core::marker::PhantomData,
        };
        proof {
            assert(r.buckets@.flatten() =~= Seq::<u8>::empty());
            assert(r.data_handle.written() + r.data@.subrange(0, r.data@.len() - PADDING_SIZE)
                =~= Seq::<u8>::empty());
        }
        r
    }

    /// Number of buckets opened so far.
    pub fn len(&self) -> (r: usize)
        requires
            self.wf(),
        ensures
            r == self.len_spec(),
    {
        self.index.len()
    }

    /// Whether the multivector still accepts items.
    pub fn is_open(&self) -> (r: bool)
        ensures
            r == self.is_open_spec(),
    {
        self.data_handle.is_open()
    }

    /// Flushes the buffered bucket bytes to the data handle.
    fn flush(&mut self) -> (r: Result<(), ResourceStorageError>)
        requires
            old(self).data_wf(),
        ensures
            final(self).index == old(self).index,
            final(self).name == old(self).name,
            final(self).buckets == old(self).buckets,
            r is Ok ==> {
                &&& old(self).is_open_spec()
                &&& final(self).data_wf()
                &&& final(self).is_open_spec()
                &&& final(self).data@.len() == PADDING_SIZE
            },
            !old(self).is_open_spec() ==> r is Err,
    {
        let ghost oldself = *old(self);
        let cut = self.data.len() - PADDING_SIZE;
        let chunk = vstd::slice::slice_subrange(self.data.as_slice(), 0, cut);
        match self.data_handle.write(chunk) {
            Ok(_) => {},
            Err(e) => {
                return Err(e);
            },
        }
        self.size_flushed = self.size_flushed + cut;
        self.data.truncate(0);
        let ghost h1 = self.data_handle;
        let ghost f1 = self.size_flushed;
        let mut k: usize = 0;
        while k < PADDING_SIZE
            invariant
                k <= PADDING_SIZE,
                self.data@.len() == k,
                self.index == oldself.index,
                self.name == oldself.name,
                self.buckets == oldself.buckets,
                self.size_flushed == f1,
                self.data_handle == h1,
                forall|j: int| 0 <= j < k ==> self.data@[j] == 0,
            decreases PADDING_SIZE - k,
        {
            self.data.push(0);
            k = k + 1;
        }
        proof {
            assert(self.data_handle.written() + self.data@.subrange(
                0,
                self.data@.len() - PADDING_SIZE,
            ) =~= oldself.data_handle.written() + oldself.data@.subrange(
                0,
                oldself.data@.len() - PADDING_SIZE,
            ));
        }
        Ok(())
    }

    /// Opens a new, empty bucket: writes the current cumulative data
    /// offset as the new bucket's index entry.  Items added next go to
    /// this bucket.
    pub fn grow(&mut self) -> (r: Result<(), ResourceStorageError>)
        requires
            old(self).wf(),
            old(self).is_open_spec(),
            old(self).size_flushed + old(self).data@.len() <= usize::MAX,
            bucket_offset(old(self).buckets_spec(), old(self).len_spec())
                <= Idx::max_value_spec(),
            old(self).index.len < usize::MAX,
            old(self).index.data@.len() + Idx::size_spec() <= usize::MAX,
            (old(self).index.len_spec() + 1) * Idx::size_spec() + PADDING_SIZE <= usize::MAX,
        ensures
            r is Ok ==> {
                &&& final(self).wf()
                &&& final(self).is_open_spec()
                &&& final(self).len_spec() == old(self).len_spec() + 1
                &&& final(self).buckets_spec() == old(self).buckets_spec().push(
                    Seq::<u8>::empty(),
                )
                &&& final(self).name_spec() == old(self).name_spec()
                &&& final(self).index.name_spec() == old(self).index.name_spec()
            },
            old(self).data@.len() <= FLUSH_THRESHOLD && old(self).index.data@.len()
                <= FLUSH_THRESHOLD ==> r is Ok,
    {
        if self.data.len() > FLUSH_THRESHOLD {
            match self.flush() {
                Ok(_) => {},
                Err(e) => {
                    return Err(e);
                },
            }
        }
        let ghost mid = *self;
        proof {
            assert(mid.buckets@.flatten().len() == mid.size_flushed + mid.data@.len()
                - PADDING_SIZE);
            assert(mid.buckets@.take(mid.buckets@.len() as int) =~= mid.buckets@);
        }
        let offset = self.size_flushed + (self.data.len() - PADDING_SIZE);
        match self.index.grow() {
            Ok(_) => {},
            Err(e) => {
                return Err(e);
            },
        }
        let entry = Idx::with_value(offset as u64);
        proof {
            entry.lemma_wf_len();
        }
        self.index.set_last(&entry);
        proof {
            self.buckets@ = self.buckets@.push(Seq::empty());
        }
        proof {
            Idx::lemma_size_pos();
            let s = Idx::size_spec();
            let n = mid.buckets@.len() as int;
            let irecs = self.index.records_bytes();
            let midrecs = mid.index.records_bytes();
            assert(irecs =~= midrecs + entry.bytes()) by {
                assert((midrecs + crate::arrayview::zero_record(s)).subrange(
                    0,
                    midrecs.len() as int,
                ) =~= midrecs);
            }
            assert(irecs.len() == (n + 1) * s);
            assert(n * s + s == (n + 1) * s && n * s >= 0) by (nonlinear_arith)
                requires 0 <= n, 1 <= s,
            ;
            // the new entry decodes to the new bucket's offset
            assert(irecs.subrange(n * s, n * s + s) =~= entry.bytes());
            lemma_bucket_offset_push(mid.buckets@, Seq::empty(), n);
            assert(bucket_offset(self.buckets@, n) == offset);
            // older entries are untouched
            assert forall|i: int| 0 <= i < n implies Idx::value_of(
                #[trigger] record_at(irecs, s, i),
            ) == bucket_offset(self.buckets@, i) by {
                assert(0 <= i * s && (i + 1) * s <= n * s && i * s + s == (i + 1) * s)
                    by (nonlinear_arith)
                    requires 0 <= i < n, 1 <= s,
                ;
                assert forall|j2: int| 0 <= j2 < s implies #[trigger] irecs[i * s + j2]
                    == midrecs[i * s + j2] by {
                    assert(i * s + j2 < n * s);
                }
                assert(record_at(irecs, s, i) =~= record_at(midrecs, s, i));
                lemma_bucket_offset_push(mid.buckets@, Seq::empty(), i);
            }
            assert(self.buckets@.flatten() =~= mid.buckets@.flatten()) by {
                lemma_flatten_last(self.buckets@);
                assert(self.buckets@.take(n) =~= mid.buckets@);
            }
        }
        Ok(())
    }

    /// Appends one tagged variant payload to the bucket opened last:
    /// one tag byte, then the variant's fixed-width payload.
    pub fn add(&mut self, item: &Ts)
        requires
            old(self).wf(),
            old(self).is_open_spec(),
            old(self).len_spec() > 0,
            item.wf(),
            old(self).data@.len() + 1 + Ts::tag_size(item.tag()) <= usize::MAX,
        ensures
            final(self).wf(),
            final(self).is_open_spec(),
            final(self).len_spec() == old(self).len_spec(),
            final(self).name_spec() == old(self).name_spec(),
            final(self).index == old(self).index,
            final(self).buckets_spec() == old(self).buckets_spec().update(
                old(self).len_spec() - 1,
                old(self).buckets_spec().last() + seq![item.tag()] + item.payload(),
            ),
    {
        let ghost oldself = *old(self);
        proof {
            item.lemma_wf();
        }
        let tag = item.get_tag();
        let payload = item.payload_bytes();
        let psz = payload.len();
        let cut = self.data.len() - PADDING_SIZE;
        let ghost h1 = self.data_handle;
        // make room: one tag byte plus the payload, keeping zero padding
        let mut k: usize = 0;
        while k < 1 + psz
            invariant
                k <= 1 + psz,
                psz == item.payload().len(),
                oldself.data@.len() + 1 + psz <= usize::MAX,
                self.data@.len() == oldself.data@.len() + k,
                self.index == oldself.index,
                self.name == oldself.name,
                self.buckets == oldself.buckets,
                self.size_flushed == oldself.size_flushed,
                self.data_handle == h1,
                forall|j: int| 0 <= j < oldself.data@.len() ==> self.data@[j] == oldself.data@[j],
                forall|j: int| oldself.data@.len() <= j < self.data@.len() ==> self.data@[j] == 0,
            decreases 1 + psz - k,
        {
            self.data.push(0);
            k = k + 1;
        }
        self.data[cut] = tag;
        proof {
            assert forall|j: int| cut + 1 <= j < self.data@.len() implies self.data@[j]
                == 0u8 by {
                if j < oldself.data@.len() {
                    assert(self.data@[j] == oldself.data@[j]);
                }
            }
        }
        let mut k: usize = 0;
        while k < psz
            invariant
                k <= psz,
                psz == item.payload().len(),
                oldself.data@.len() + 1 + psz <= usize::MAX,
                payload@ == item.payload(),
                cut == oldself.data@.len() - PADDING_SIZE,
                self.data@.len() == oldself.data@.len() + 1 + psz,
                self.index == oldself.index,
                self.name == oldself.name,
                self.buckets == oldself.buckets,
                self.size_flushed == oldself.size_flushed,
                self.data_handle == h1,
                oldself.data_wf(),
                self.data@[cut as int] == item.tag(),
                forall|j: int| 0 <= j < cut ==> self.data@[j] == oldself.data@[j],
                forall|j: int| cut < j < cut + 1 + k ==> self.data@[j] == item.payload()[j - cut
                    - 1],
                forall|j: int| cut + 1 + k <= j < self.data@.len() ==> self.data@[j] == 0,
            decreases psz - k,
        {
            self.data[cut + 1 + k] = payload[k];
            k = k + 1;
        }
        proof {
            self.buckets@ = oldself.buckets@.update(
                oldself.buckets@.len() - 1,
                oldself.buckets@.last() + seq![item.tag()] + item.payload(),
            );
        }
        proof {
            let n = oldself.buckets@.len() as int;
            let added = seq![item.tag()] + item.payload();
            let v = oldself.buckets@.last() + seq![item.tag()] + item.payload();
            lemma_flatten_update_last(oldself.buckets@, v);
            lemma_flatten_last(oldself.buckets@);
            assert(self.buckets@.flatten() =~= oldself.buckets@.flatten() + added);
            let newcut = self.data@.len() - PADDING_SIZE;
            assert forall|j: int| 0 <= j < newcut implies #[trigger] self.data@.subrange(
                0,
                newcut,
            )[j] == (oldself.data@.subrange(0, cut as int) + added)[j] by {
                if j < cut {
                    assert(self.data@[j] == oldself.data@[j]);
                } else if j == cut {
                } else {
                    assert(self.data@[j] == item.payload()[j - cut - 1]);
                }
            }
            assert(self.data@.subrange(0, newcut) =~= oldself.data@.subrange(0, cut as int)
                + added);
            assert(self.data_handle.written() + self.data@.subrange(
                0,
                self.data@.len() - PADDING_SIZE,
            ) =~= self.buckets@.flatten());
            assert forall|j: int|
                self.data@.len() - PADDING_SIZE <= j < self.data@.len() implies self.data@[j]
                == 0u8 by {}
            assert(self.data_wf());
            // the index entries still decode to the same offsets
            assert forall|i: int| 0 <= i < n implies Idx::value_of(
                #[trigger] record_at(self.index.records_bytes(), Idx::size_spec(), i),
            ) == bucket_offset(self.buckets@, i) by {
                lemma_bucket_offset_update_last(oldself.buckets@, v, i);
            }
        }
    }

    /// Writes the sentinel index entry closing the last bucket, seals
    /// both streams, and stores them: the index resource under its own
    /// name, the bucket data under this multivector's name.
    pub fn close(&mut self, storage: &mut St) -> (r: Result<(), ResourceStorageError>)
        requires
            old(self).wf(),
            old(self).size_flushed + old(self).data@.len() <= usize::MAX,
            bucket_offset(old(self).buckets_spec(), old(self).len_spec())
                <= Idx::max_value_spec(),
            old(self).index.len < usize::MAX,
            old(self).index.data@.len() + Idx::size_spec() <= usize::MAX,
            (old(self).index.len_spec() + 1) * Idx::size_spec() + PADDING_SIZE <= usize::MAX,
        ensures
            r is Ok ==> {
                let key = old(storage).full_key(old(self).name_spec());
                let ikey = old(storage).full_key(old(self).index.name_spec());
                let buckets = old(self).buckets_spec();
                let s = Idx::size_spec();
                let ipayload = frame_payload(final(storage).model().resources[ikey]);
                &&& old(self).is_open_spec()
                &&& !final(self).is_open_spec()
                &&& key != ikey
                &&& final(storage).model().frozen == old(storage).model().frozen
                &&& final(storage).model().resources.dom() == old(
                    storage,
                ).model().resources.dom().insert(ikey).insert(key)
                &&& is_framed(final(storage).model().resources[key], buckets.flatten())
                &&& is_framed(final(storage).model().resources[ikey], ipayload)
                &&& ipayload.len() == (buckets.len() + 1) * s
                &&& forall|i: int|
                    0 <= i <= buckets.len() ==> Idx::value_of(
                        #[trigger] record_at(ipayload, s, i),
                    ) == bucket_offset(buckets, i)
                &&& forall|k: Seq<char>|
                    k != key && k != ikey && old(storage).model().resources.dom().contains(k)
                        ==> final(storage).model().resources[k] == old(
                        storage,
                    ).model().resources[k]
                &&& forall|n: Seq<char>| final(storage).full_key(n) == old(storage).full_key(n)
            },
            !old(self).is_open_spec() ==> r is Err,
    {
        if !self.data_handle.is_open() {
            return Err(
                ResourceStorageError::Io {
                    message: String::from_str("stream closed"),
                },
            );
        }
        let ghost buckets0 = self.buckets@;
        let ghost n = self.buckets@.len() as int;
        proof {
            assert(buckets0.take(n) =~= buckets0);
        }
        // sentinel entry: the total data size, closing the last bucket
        let offset = self.size_flushed + (self.data.len() - PADDING_SIZE);
        match self.index.grow() {
            Ok(_) => {},
            Err(e) => {
                return Err(e);
            },
        }
        let entry = Idx::with_value(offset as u64);
        proof {
            entry.lemma_wf_len();
        }
        self.index.set_last(&entry);
        let ghost irecs = self.index.records_bytes();
        proof {
            Idx::lemma_size_pos();
            let s = Idx::size_spec();
            let midrecs = old(self).index.records_bytes();
            assert(irecs =~= midrecs + entry.bytes()) by {
                assert((midrecs + crate::arrayview::zero_record(s)).subrange(
                    0,
                    midrecs.len() as int,
                ) =~= midrecs);
            }
            assert(n * s + s == (n + 1) * s && n * s >= 0) by (nonlinear_arith)
                requires 0 <= n, 1 <= s,
            ;
            assert(irecs.subrange(n * s, n * s + s) =~= entry.bytes());
            assert forall|i: int| 0 <= i <= n implies Idx::value_of(
                #[trigger] record_at(irecs, s, i),
            ) == bucket_offset(buckets0, i) by {
                if i < n {
                    assert(0 <= i * s && (i + 1) * s <= n * s && i * s + s == (i + 1) * s)
                        by (nonlinear_arith)
                        requires 0 <= i < n, 1 <= s,
                    ;
                    assert forall|j2: int| 0 <= j2 < s implies #[trigger] irecs[i * s + j2]
                        == midrecs[i * s + j2] by {
                        assert(i * s + j2 < n * s);
                    }
                    assert(record_at(irecs, s, i) =~= record_at(midrecs, s, i));
                }
            }
        }
        match self.index.close(storage) {
            Ok(_) => {},
            Err(e) => {
                return Err(e);
            },
        }
        let ghost storage1 = *storage;
        match self.flush() {
            Ok(_) => {},
            Err(e) => {
                return Err(e);
            },
        }
        let sink = match self.data_handle.close() {
            Ok(s) => s,
            Err(e) => {
                return Err(e);
            },
        };
        let r = storage.store_stream(self.name.as_str(), sink);
        proof {
            if r is Ok {
                let key = old(storage).full_key(old(self).name_spec());
                let ikey = old(storage).full_key(old(self).index.name_spec());
                old(storage).lemma_full_key_injective(
                    old(self).name_spec(),
                    old(self).index.name_spec(),
                );
                assert(final(storage).model().resources.dom() =~= old(
                    storage,
                ).model().resources.dom().insert(ikey).insert(key));
                let ic = final(storage).model().resources[ikey];
                crate::storage::lemma_framed_reads_back(ic, irecs);
                let c = final(storage).model().resources[key];
                crate::storage::lemma_framed_reads_back(c, buckets0.flatten());
            }
        }
        r
    }
}

/// Creates a multivector writing to the resource `resource_name` in the
/// given storage: stores the schema companions at once, creates the
/// index stream under `<name>_index` with schema `index(<schema>)`, and
/// binds the bucket data to a fresh framed sink.
pub fn create_multi_vector<Idx: IndexStruct, Ts: VariadicStruct, St: ResourceStorage>(
    storage: &mut St,
    resource_name: &str,
    schema: &str,
) -> (r: Result<MultiVector<Idx, Ts, St>, ResourceStorageError>)
    ensures
        forall|n: Seq<char>| final(storage).full_key(n) == old(storage).full_key(n),
        r matches Ok(mv) ==> {
            let iskey = old(storage).full_key(resource_name@ + "_index"@ + ".schema"@);
            let skey = old(storage).full_key(resource_name@ + ".schema"@);
            &&& mv.wf()
            &&& mv.is_open_spec()
            &&& mv.len_spec() == 0
            &&& mv.buckets_spec() == Seq::<Seq<u8>>::empty()
            &&& mv.name_spec() == resource_name@
            &&& mv.index.name_spec() == resource_name@ + "_index"@
            &&& final(storage).model().frozen == old(storage).model().frozen
            &&& final(storage).model().resources.dom() == old(
                storage,
            ).model().resources.dom().insert(iskey).insert(skey)
            &&& iskey != skey
            &&& final(storage).model().resources[iskey] == vstd::utf8::encode_utf8(
                "index("@ + schema@ + ")"@,
            )
            &&& final(storage).model().resources[skey] == schema.spec_bytes()
            &&& forall|k: Seq<char>|
                k != iskey && k != skey && old(storage).model().resources.dom().contains(k)
                    ==> final(storage).model().resources[k] == old(storage).model().resources[k]
        },
{
    let index_name = String::from_str(resource_name).concat("_index");
    let index_schema = String::from_str("index(").concat(schema).concat(
        ")",
    );
    let index = crate::vector::create_external_vector::<Idx, St>(
        storage,
        index_name.as_str(),
        index_schema.as_str(),
    )?;
    let schema_name = String::from_str(resource_name).concat(".schema");
    let mut sink = storage.create_output_stream(schema_name.as_str())?;
    match crate::storage::write_schema(schema, &mut sink) {
        Ok(_) => {},
        Err(e) => {
            return Err(e);
        },
    }
    proof {
        assert(sink.content() =~= schema.spec_bytes());
    }
    storage.store_stream(schema_name.as_str(), sink)?;
    let data_sink = storage.create_output_stream(resource_name)?;
    let handle = ResourceHandle::new(data_sink)?;
    proof {
        reveal_strlit("_index");
        reveal_strlit(".schema");
        assert((resource_name@ + "_index"@).len() == resource_name@.len() + 6);
        assert((resource_name@ + "_index"@ + ".schema"@).len() == resource_name@.len() + 13);
        assert((resource_name@ + ".schema"@).len() == resource_name@.len() + 7);
        storage.lemma_full_key_injective(
            resource_name@ + "_index"@ + ".schema"@,
            resource_name@ + ".schema"@,
        );
        assert(final(storage).model().resources.dom() =~= old(
            storage,
        ).model().resources.dom().insert(
            old(storage).full_key(resource_name@ + "_index"@ + ".schema"@),
        ).insert(old(storage).full_key(resource_name@ + ".schema"@)));
    }
    Ok(
        MultiVector::new(
            index,
            handle,
            String::from_str(resource_name),
        ),
    )
}

} // verus!
