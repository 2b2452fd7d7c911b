//! The read side of the indexed container of heterogeneous buckets.
//!
//! A multi array view borrows an index region and a data region.  Item
//! `i`'s bucket is the data between index entries `i` and `i + 1` (the
//! trailing sentinel entry always makes `i + 1` valid).  A bucket is a
//! sequence of tagged variant payloads: one tag byte, then that
//! variant's fixed-width payload, repeated until the bucket ends.

use crate::arrayview::{record_at, ArrayView};
use crate::error::ResourceStorageError;
use crate::records::{IndexStruct, Struct, VariadicStruct};
use vstd::prelude::*;

verus! {

/// The items encoded in a bucket, as (tag, payload) pairs, or `None`
/// when the bucket bytes are corrupt: an unknown tag, or a payload
/// running past the bucket's end.
pub open spec fn parse_bucket<Ts: VariadicStruct>(d: Seq<u8>) -> Option<Seq<(u8, Seq<u8>)>>
    decreases d.len(),
{
    if d.len() == 0 {
        Some(Seq::empty())
    } else {
        let tag = d[0];
        let sz = Ts::tag_size(tag);
        if Ts::valid_tag(tag) && 0 <= sz && 1 + sz <= d.len() {
            match parse_bucket::<Ts>(d.subrange(1 + sz, d.len() as int)) {
                Some(rest) => Some(seq![(tag, d.subrange(1, 1 + sz))] + rest),
                None => None,
            }
        } else {
            None
        }
    }
}

/// Checks that a bucket parses: every tag is valid and every payload
/// lies within the bucket.
fn bucket_parses<Ts: VariadicStruct>(data: &[u8]) -> (r: bool)
    ensures
        r == (parse_bucket::<Ts>(data@) is Some),
{
    let n = data.len();
    let mut pos: usize = 0;
    proof {
        assert(data@.subrange(0, n as int) =~= data@);
    }
    while pos < n
        invariant
            pos <= n,
            n == data@.len(),
            (parse_bucket::<Ts>(data@) is Some) == (parse_bucket::<Ts>(
                data@.subrange(pos as int, n as int),
            ) is Some),
        decreases n - pos,
    {
        let ghost rest = data@.subrange(pos as int, n as int);
        let tag = data[pos];
        proof {
            assert(rest[0] == data@[pos as int]);
        }
        if !Ts::is_valid_tag(tag) {
            return false;
        }
        let sz = Ts::size_for_tag(tag);
        proof {
            Ts::lemma_tag_size_bounds(tag);
        }
        if sz > n - pos - 1 {
            proof {
                assert(!(1 + Ts::tag_size(tag) <= rest.len()));
            }
            return false;
        }
        proof {
            assert(rest.subrange(1 + sz, rest.len() as int) =~= data@.subrange(
                pos + 1 + sz,
                n as int,
            ));
        }
        pos = pos + 1 + sz;
    }
    proof {
        assert(data@.subrange(pos as int, n as int) =~= Seq::<u8>::empty());
    }
    true
}

/// Iterator over one bucket's items, in encounter order.
///
/// The iterator reads one tag byte, decodes that variant's fixed-width
/// payload, advances past both, and stops when the bucket is exhausted.
pub struct MultiArrayViewItemIter<'a, Ts> {
    /// The not yet consumed bucket bytes.
    pub data: &'a [u8],
    /// Marker tying the iterator to its variant family.
    pub _phantom: core::marker::PhantomData<Ts>,
}

impl<'a, Ts: VariadicStruct> MultiArrayViewItemIter<'a, Ts> {
    /// The remaining bucket bytes parse.
    pub open spec fn wf(&self) -> bool {
        parse_bucket::<Ts>(self.data@) is Some
    }

    /// The (tag, payload) pairs not yet yielded.
    pub open spec fn items(&self) -> Seq<(u8, Seq<u8>)> {
        match parse_bucket::<Ts>(self.data@) {
            Some(it) => it,
            None => Seq::empty(),
        }
    }

    /// Yields the next item, or `None` when the bucket is exhausted.
    pub fn next(&mut self) -> (r: Option<Ts>)
        requires
            old(self).wf(),
        ensures
            final(self).wf(),
            match r {
                Some(t) => {
                    &&& old(self).items().len() > 0
                    &&& t.wf()
                    &&& (t.tag(), t.payload()) == old(self).items()[0]
                    &&& final(self).items() == old(self).items().drop_first()
                },
                None => {
                    &&& old(self).items().len() == 0
                    &&& final(self).items() == old(self).items()
                },
            },
    {
        let n = self.data.len();
        if n == 0 {
            return None;
        }
        let tag = self.data[0];
        let sz = Ts::size_for_tag(tag);
        proof {
            Ts::lemma_tag_size_bounds(tag);
        }
        let payload = vstd::slice::slice_subrange(self.data, 1, 1 + sz);
        let item = Ts::from_tag_bytes(tag, payload);
        let ghost before = self.data@;
        self.data = vstd::slice::slice_subrange(self.data, 1 + sz, n);
        proof {
            let rest = before.subrange(1 + sz as int, before.len() as int);
            assert(self.data@ =~= rest);
            assert((seq![(tag, before.subrange(1, 1 + sz as int))] + self.items()).drop_first()
                =~= self.items());
        }
        Some(item)
    }
}

/// A read-only view on a multivector: an index region and a data
/// region, borrowed, with item `i`'s bucket between index entries `i`
/// and `i + 1`.
pub struct MultiArrayView<'a, Idx, Ts> {
    /// The index entries, one per item plus the sentinel.
    pub index: ArrayView<'a, Idx>,
    /// The bucket data.
    pub data: &'a [u8],
    /// Marker tying the view to its variant family.
    pub _phantom: core::marker::PhantomData<Ts>,
}

/// The offset stored in index entry `i`.
pub open spec fn index_value_at<Idx: IndexStruct>(index: Seq<u8>, i: int) -> int {
    Idx::value_of(record_at(index, Idx::size_spec(), i))
}

/// Whether an index region and a data region form a well-shaped
/// multivector image: at least the sentinel entry, offsets monotone and
/// within the data, and every bucket parsing.
pub open spec fn multi_wf<Idx: IndexStruct, Ts: VariadicStruct>(
    index: Seq<u8>,
    n: int,
    data: Seq<u8>,
) -> bool {
    &&& n >= 1
    &&& forall|i: int|
        0 <= i < n ==> 0 <= #[trigger] index_value_at::<Idx>(index, i) <= data.len()
    &&& forall|i: int|
        0 <= i < n - 1 ==> #[trigger] index_value_at::<Idx>(index, i) <= index_value_at::<Idx>(
            index,
            i + 1,
        )
    &&& forall|i: int|
        0 <= i < n - 1 ==> parse_bucket::<Ts>(
            #[trigger] data.subrange(
                index_value_at::<Idx>(index, i),
                index_value_at::<Idx>(index, i + 1),
            ),
        ) is Some
}

impl<'a, Idx: IndexStruct, Ts: VariadicStruct> MultiArrayView<'a, Idx, Ts> {
    /// The view's regions are well shaped.
    pub open spec fn wf(&self) -> bool {
        &&& self.index.wf()
        &&& multi_wf::<Idx, Ts>(self.index.payload(), self.index.len_spec(), self.data@)
    }

    /// Number of items (not of stored values: a bucket may be empty or
    /// hold many values).
    pub open spec fn len_spec(&self) -> int {
        self.index.len_spec() - 1
    }

    /// The bytes of item `i`'s bucket.
    pub open spec fn bucket_spec(&self, i: int) -> Seq<u8> {
        self.data@.subrange(
            index_value_at::<Idx>(self.index.payload(), i),
            index_value_at::<Idx>(self.index.payload(), i + 1),
        )
    }

    /// The (tag, payload) pairs of item `i`'s bucket.
    pub open spec fn items_spec(&self, i: int) -> Seq<(u8, Seq<u8>)> {
        match parse_bucket::<Ts>(self.bucket_spec(i)) {
            Some(it) => it,
            None => Seq::empty(),
        }
    }

    /// Builds a view over an index region and a data region, checking
    /// their shape: the view is refused, rather than truncated or
    /// trusted, when an offset leaves the data, offsets run backwards,
    /// a tag is unknown, or a payload runs past its bucket.
    #[verifier::rlimit(100)]
    pub fn new(index: ArrayView<'a, Idx>, data: &'a [u8]) -> (r: Result<
        Self,
        ResourceStorageError,
    >)
        requires
            index.wf(),
        ensures
            match r {
                Ok(v) => {
                    &&& v.wf()
                    &&& v.index == index
                    &&& v.data@ == data@
                    &&& v.len_spec() == index.len_spec() - 1
                },
                Err(e) => {
                    &&& e == ResourceStorageError::UnexpectedDataSize
                    &&& !multi_wf::<Idx, Ts>(index.payload(), index.len_spec(), data@)
                },
            },
    {
        let n = index.len();
        if n < 1 {
            return Err(ResourceStorageError::UnexpectedDataSize);
        }
        let mut i: usize = 0;
        while i < n
            invariant
                i <= n,
                n == index.len_spec(),
                index.wf(),
                forall|k: int|
                    0 <= k < i ==> 0 <= #[trigger] index_value_at::<Idx>(index.payload(), k)
                        <= data@.len(),
            decreases n - i,
        {
            let entry = index.at(i);
            let v = entry.value();
            proof {
                entry.lemma_wf_len();
                Idx::lemma_value_bounds(entry.bytes());
                assert(index_value_at::<Idx>(index.payload(), i as int) == v as int);
            }
            if v > data.len() as u64 {
                return Err(ResourceStorageError::UnexpectedDataSize);
            }
            i = i + 1;
        }
        let mut i: usize = 0;
        while i + 1 < n
            invariant
                i <= n - 1,
                n == index.len_spec(),
                index.wf(),
                n >= 1,
                forall|k: int|
                    0 <= k < n ==> 0 <= #[trigger] index_value_at::<Idx>(index.payload(), k)
                        <= data@.len(),
                forall|k: int|
                    0 <= k < i ==> #[trigger] index_value_at::<Idx>(index.payload(), k)
                        <= index_value_at::<Idx>(index.payload(), k + 1),
                forall|k: int|
                    0 <= k < i ==> parse_bucket::<Ts>(
                        #[trigger] data@.subrange(
                            index_value_at::<Idx>(index.payload(), k),
                            index_value_at::<Idx>(index.payload(), k + 1),
                        ),
                    ) is Some,
            decreases n - i,
        {
            let e0 = index.at(i);
            let e1 = index.at(i + 1);
            let start = e0.value();
            let end = e1.value();
            proof {
                e0.lemma_wf_len();
                e1.lemma_wf_len();
                Idx::lemma_value_bounds(e0.bytes());
                Idx::lemma_value_bounds(e1.bytes());
                assert(index_value_at::<Idx>(index.payload(), i as int) == start as int);
                assert(index_value_at::<Idx>(index.payload(), i + 1) == end as int);
            }
            if start > end {
                return Err(ResourceStorageError::UnexpectedDataSize);
            }
            let dn = data.len();
            proof {
                assert(start as int <= end as int);
                assert(end as int <= dn as int);
            }
            let bucket = vstd::slice::slice_subrange(data, start as usize, end as usize);
            if !bucket_parses::<Ts>(bucket) {
                return Err(ResourceStorageError::UnexpectedDataSize);
            }
            i = i + 1;
        }
        Ok(MultiArrayView { index, data, _phantom: core::marker::PhantomData })
    }

    /// Number of items in the view.
    pub fn len(&self) -> (r: usize)
        requires
            self.wf(),
        ensures
            r == self.len_spec(),
    {
        self.index.len() - 1
    }

    /// Whether the view holds no items.
    pub fn is_empty(&self) -> (r: bool)
        requires
            self.wf(),
        ensures
            r == (self.len_spec() == 0),
    {
        self.index.len() == 1
    }

    /// An iterator over the values of item `index`'s bucket.
    pub fn at(&self, index: usize) -> (r: MultiArrayViewItemIter<'a, Ts>)
        requires
            self.wf(),
            index < self.len_spec(),
        ensures
            r.wf(),
            r.items() == self.items_spec(index as int),
            r.data@ == self.bucket_spec(index as int),
    {
        let e0 = self.index.at(index);
        let e1 = self.index.at(index + 1);
        let start = e0.value();
        let end = e1.value();
        proof {
            e0.lemma_wf_len();
            e1.lemma_wf_len();
            Idx::lemma_value_bounds(e0.bytes());
            Idx::lemma_value_bounds(e1.bytes());
            assert(index_value_at::<Idx>(self.index.payload(), index as int) == start as int);
            assert(index_value_at::<Idx>(self.index.payload(), index + 1) == end as int);
            assert(index_value_at::<Idx>(self.index.payload(), index as int)
                <= index_value_at::<Idx>(self.index.payload(), index + 1));
            assert(0 <= index_value_at::<Idx>(self.index.payload(), index + 1) <= self.data@.len());
            assert(start as int <= end as int);
        }
        let dn = self.data.len();
        proof {
            assert(end as int <= dn as int);
        }
        let bucket = vstd::slice::slice_subrange(self.data, start as usize, end as usize);
        proof {
            assert(bucket@ =~= self.bucket_spec(index as int));
        }
        MultiArrayViewItemIter { data: bucket, _phantom: core::marker::PhantomData }
    }

    /// An iterator over the items, in index order, yielding one bucket
    /// iterator per item.  Iteration is restartable: a fresh iterator
    /// can be taken at any time.
    pub fn iter(&self) -> (r: MultiArrayViewIter<'a, Idx, Ts>)
        requires
            self.wf(),
        ensures
            r.view.wf(),
            r.view.index == self.index,
            r.view.data@ == self.data@,
            r.pos == 0,
    {
        MultiArrayViewIter {
            view: MultiArrayView {
                index: ArrayView {
                    data: self.index.data,
                    len: self.index.len,
                    _phantom: core::marker::PhantomData,
                },
                data: self.data,
                _phantom: core::marker::PhantomData,
            },
            pos: 0,
        }
    }
}

/// Iterator over the items of a [`MultiArrayView`], in index order.
pub struct MultiArrayViewIter<'a, Idx, Ts> {
    /// The view being walked.
    pub view: MultiArrayView<'a, Idx, Ts>,
    /// Position of the next item to yield.
    pub pos: usize,
}

impl<'a, Idx: IndexStruct, Ts: VariadicStruct> MultiArrayViewIter<'a, Idx, Ts> {
    /// Yields the bucket iterator of the next item, or `None` when
    /// every item was yielded.
    pub fn next(&mut self) -> (r: Option<MultiArrayViewItemIter<'a, Ts>>)
        requires
            old(self).view.wf(),
            old(self).pos <= old(self).view.len_spec(),
        ensures
            final(self).view == old(self).view,
            match r {
                Some(it) => {
                    &&& old(self).pos < old(self).view.len_spec()
                    &&& final(self).pos == old(self).pos + 1
                    &&& it.wf()
                    &&& it.items() == old(self).view.items_spec(old(self).pos as int)
                },
                None => {
                    &&& old(self).pos == old(self).view.len_spec()
                    &&& final(self).pos == old(self).pos
                },
            },
    {
        if self.pos + 1 < self.view.index.len() {
            let element = self.view.at(self.pos);
            self.pos = self.pos + 1;
            Some(element)
        } else {
            None
        }
    }
}

} // verus!
