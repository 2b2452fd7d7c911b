//! The record codec contract: what every concrete record type, index
//! record type and tagged-variant family promises to the containers.
//!
//! Concrete record types are normally produced by a schema-driven code
//! generator outside this crate; the containers here are generic over
//! these traits and never inspect a record beyond its byte image.

use vstd::prelude::*;

verus! {

/// A fixed-width, bit-packed record.
///
/// A record value carries exactly `size_spec()` bytes; its fields are
/// functions of those bytes (see [`crate::bits`]).  Containers store and
/// move records purely as byte spans.
pub trait Struct: Sized {
    /// Width of every record of this type, in bytes.
    spec fn size_spec() -> int;

    /// The record holds exactly its declared number of bytes.
    spec fn wf(&self) -> bool;

    /// The record's byte image.
    spec fn bytes(&self) -> Seq<u8>;

    /// Records are at least one byte wide.
    proof fn lemma_size_pos()
        ensures
            1 <= Self::size_spec();

    /// A well-formed record's byte image has the declared width.
    proof fn lemma_wf_len(&self)
        requires
            self.wf(),
        ensures
            self.bytes().len() == Self::size_spec();

    /// Width of every record of this type, in bytes.
    fn size_in_bytes() -> (r: usize)
        ensures
            r as int == Self::size_spec(),
            1 <= r;

    /// Reconstructs a record from its byte image.
    fn from_bytes(b: &[u8]) -> (r: Self)
        requires
            b@.len() == Self::size_spec(),
        ensures
            r.wf(),
            r.bytes() == b@;

    /// The record's byte image.
    fn as_bytes(&self) -> (r: &[u8])
        requires
            self.wf(),
        ensures
            r@ == self.bytes();
}

/// A record type that stores one unsigned offset, used as the entry type
/// of a multivector's index.
pub trait IndexStruct: Struct {
    /// Largest offset this index record type can carry.
    spec fn max_value_spec() -> int;

    /// The offset stored in an index record with byte image `b`.
    spec fn value_of(b: Seq<u8>) -> int;

    /// Stored offsets are non-negative and bounded.
    proof fn lemma_value_bounds(b: Seq<u8>)
        requires
            b.len() == Self::size_spec(),
        ensures
            0 <= Self::value_of(b) <= Self::max_value_spec();

    /// Largest offset this index record type can carry.
    fn max_value() -> (r: u64)
        ensures
            r as int == Self::max_value_spec();

    /// Builds an index record storing the offset `v`.
    fn with_value(v: u64) -> (r: Self)
        requires
            v as int <= Self::max_value_spec(),
        ensures
            r.wf(),
            Self::value_of(r.bytes()) == v as int;

    /// The offset stored in this index record.
    fn value(&self) -> (r: u64)
        requires
            self.wf(),
        ensures
            r as int == Self::value_of(self.bytes());
}

/// A family of record types unified under one-byte tags, the element type
/// of a multivector's buckets.
///
/// A value is one variant: a valid tag together with a payload of that
/// tag's fixed width.  On disk it is written as the tag byte followed by
/// the payload bytes.
pub trait VariadicStruct: Sized {
    /// Whether `tag` selects a variant of this family.
    spec fn valid_tag(tag: u8) -> bool;

    /// Payload width, in bytes, of the variant selected by `tag`.
    spec fn tag_size(tag: u8) -> int;

    /// The value is a variant with a payload of its declared width.
    spec fn wf(&self) -> bool;

    /// The value's tag.
    spec fn tag(&self) -> u8;

    /// The value's payload bytes.
    spec fn payload(&self) -> Seq<u8>;

    /// Payload widths are non-negative and small.
    proof fn lemma_tag_size_bounds(tag: u8)
        requires
            Self::valid_tag(tag),
        ensures
            0 <= Self::tag_size(tag) <= 0xffff_ffff;

    /// A well-formed value carries a valid tag and a payload of that
    /// tag's width.
    proof fn lemma_wf(&self)
        requires
            self.wf(),
        ensures
            Self::valid_tag(self.tag()),
            self.payload().len() == Self::tag_size(self.tag());

    /// Whether `tag` selects a variant of this family.
    fn is_valid_tag(tag: u8) -> (r: bool)
        ensures
            r == Self::valid_tag(tag);

    /// Payload width, in bytes, of the variant selected by `tag`.
    fn size_for_tag(tag: u8) -> (r: usize)
        requires
            Self::valid_tag(tag),
        ensures
            r as int == Self::tag_size(tag);

    /// The value's tag.
    fn get_tag(&self) -> (r: u8)
        requires
            self.wf(),
        ensures
            r == self.tag();

    /// The value's payload bytes.
    fn payload_bytes(&self) -> (r: &[u8])
        requires
            self.wf(),
        ensures
            r@ == self.payload();

    /// Reconstructs the variant selected by `tag` from its payload bytes.
    fn from_tag_bytes(tag: u8, b: &[u8]) -> (r: Self)
        requires
            Self::valid_tag(tag),
            b@.len() == Self::tag_size(tag),
        ensures
            r.wf(),
            r.tag() == tag,
            r.payload() == b@;
}

/// A record type whose values are ordered, so that a container of its
/// records can be sorted.
///
/// The order may be partial: two records may be incomparable, in which
/// case sorting them is a fatal error.
pub trait SortableStruct: Struct {
    /// Whether the records with byte images `a` and `b` can be ordered.
    spec fn comparable(a: Seq<u8>, b: Seq<u8>) -> bool;

    /// Whether the record with byte image `a` sorts at or before the one
    /// with byte image `b`.
    spec fn le(a: Seq<u8>, b: Seq<u8>) -> bool;

    /// Comparability is symmetric, and comparable records are ordered one
    /// way or the other.
    proof fn lemma_total(a: Seq<u8>, b: Seq<u8>)
        requires
            Self::comparable(a, b),
        ensures
            Self::comparable(b, a),
            Self::le(a, b) || Self::le(b, a);

    /// The order is transitive.
    proof fn lemma_le_trans(a: Seq<u8>, b: Seq<u8>, c: Seq<u8>)
        requires
            Self::le(a, b),
            Self::le(b, c),
        ensures
            Self::le(a, c);

    /// Compares two record byte images; `None` when they are incomparable.
    fn le_bytes(a: &[u8], b: &[u8]) -> (r: Option<bool>)
        requires
            a@.len() == Self::size_spec(),
            b@.len() == Self::size_spec(),
        ensures
            r is Some <==> Self::comparable(a@, b@),
            r matches Some(v) ==> v == Self::le(a@, b@),
;
}

} // verus!
