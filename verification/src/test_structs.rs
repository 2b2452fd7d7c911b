//! Hand-written example record types.
//!
//! These are the kinds of types a schema-driven code generator would emit:
//! a two-field record `A` (16-bit `x` at bit 0, 16-bit `y` at bit 16, four
//! bytes wide), an index record `Idx` (32-bit offset, four bytes wide),
//! their mutable builder counterparts, and a one-variant tagged family.

use crate::bits::{
    field_value, lemma_field_value_bound, lemma_field_value_same_bits, read_bits, write_bits,
};
use crate::records::{IndexStruct, SortableStruct, Struct, VariadicStruct};
use crate::storage::ArchiveBuilder;
use vstd::arithmetic::power2::*;
use vstd::prelude::*;

verus! {

/// A read-only record with fields `x` (16 bits at bit 0) and `y` (16 bits
/// at bit 16), four bytes wide.
#[derive(Debug, Clone)]
pub struct A {
    pub data: Vec<u8>,
}

impl A {
    /// The `x` field of a record with byte image `b`.
    pub open spec fn x_spec(b: Seq<u8>) -> nat {
        field_value(b, 0, 16)
    }

    /// The `y` field of a record with byte image `b`.
    pub open spec fn y_spec(b: Seq<u8>) -> nat {
        field_value(b, 16, 16)
    }

    /// Reads the `x` field.
    pub fn x(&self) -> (r: u32)
        requires
            self.wf(),
        ensures
            r as nat == Self::x_spec(self.bytes()),
    {
        proof {
            lemma_field_value_bound(self.data@, 0, 16);
            lemma2_to64();
        }
        read_bits(self.data.as_slice(), 0, 0, 16) as u32
    }

    /// Reads the `y` field.
    pub fn y(&self) -> (r: u32)
        requires
            self.wf(),
        ensures
            r as nat == Self::y_spec(self.bytes()),
    {
        proof {
            lemma_field_value_bound(self.data@, 16, 16);
            lemma2_to64();
        }
        read_bits(self.data.as_slice(), 0, 16, 16) as u32
    }
}

impl Struct for A {
    open spec fn size_spec() -> int {
        4
    }

    open spec fn wf(&self) -> bool {
        self.data@.len() == 4
    }

    open spec fn bytes(&self) -> Seq<u8> {
        self.data@
    }

    proof fn lemma_size_pos() {
    }

    proof fn lemma_wf_len(&self) {
    }

    fn size_in_bytes() -> (r: usize) {
        4
    }

    fn from_bytes(b: &[u8]) -> (r: Self) {
        A { data: vstd::slice::slice_to_vec(b) }
    }

    fn as_bytes(&self) -> (r: &[u8]) {
        self.data.as_slice()
    }
}

impl SortableStruct for A {
    open spec fn comparable(a: Seq<u8>, b: Seq<u8>) -> bool {
        true
    }

    open spec fn le(a: Seq<u8>, b: Seq<u8>) -> bool {
        Self::x_spec(a) < Self::x_spec(b) || (Self::x_spec(a) == Self::x_spec(b) && Self::y_spec(a)
            <= Self::y_spec(b))
    }

    proof fn lemma_total(a: Seq<u8>, b: Seq<u8>) {
    }

    proof fn lemma_le_trans(a: Seq<u8>, b: Seq<u8>, c: Seq<u8>) {
    }

    fn le_bytes(a: &[u8], b: &[u8]) -> (r: Option<bool>) {
        let ax = read_bits(a, 0, 0, 16);
        let ay = read_bits(a, 0, 16, 16);
        let bx = read_bits(b, 0, 0, 16);
        let by = read_bits(b, 0, 16, 16);
        Some(ax < bx || (ax == bx && ay <= by))
    }
}

/// The mutable builder counterpart of [`A`].
#[derive(Debug, Clone)]
pub struct AMut {
    pub data: Vec<u8>,
}

impl AMut {
    /// The record holds exactly four bytes.
    pub open spec fn wf(&self) -> bool {
        self.data@.len() == 4
    }

    /// The record's byte image.
    pub open spec fn bytes(&self) -> Seq<u8> {
        self.data@
    }

    /// A zero-filled record: both fields read zero.
    pub fn new() -> (r: Self)
        ensures
            r.wf(),
            r.bytes() == seq![0u8, 0u8, 0u8, 0u8],
    {
        let v: Vec<u8> = vec![0u8, 0u8, 0u8, 0u8];
        proof {
            assert(v@ =~= seq![0u8, 0u8, 0u8, 0u8]);
        }
        AMut { data: v }
    }

    /// A builder starting from an existing record's bytes.
    pub fn from_record(a: &A) -> (r: Self)
        requires
            a.wf(),
        ensures
            r.wf(),
            r.bytes() == a.bytes(),
    {
        AMut { data: vstd::slice::slice_to_vec(a.as_bytes()) }
    }

    /// The read-only record with this builder's bytes.
    pub fn to_record(&self) -> (r: A)
        requires
            self.wf(),
        ensures
            r.wf(),
            r.bytes() == self.bytes(),
    {
        A::from_bytes(self.data.as_slice())
    }

    /// Reads the `x` field.
    pub fn x(&self) -> (r: u32)
        requires
            self.wf(),
        ensures
            r as nat == A::x_spec(self.bytes()),
    {
        proof {
            lemma_field_value_bound(self.data@, 0, 16);
            lemma2_to64();
        }
        read_bits(self.data.as_slice(), 0, 0, 16) as u32
    }

    /// Reads the `y` field.
    pub fn y(&self) -> (r: u32)
        requires
            self.wf(),
        ensures
            r as nat == A::y_spec(self.bytes()),
    {
        proof {
            lemma_field_value_bound(self.data@, 16, 16);
            lemma2_to64();
        }
        read_bits(self.data.as_slice(), 0, 16, 16) as u32
    }

    /// Writes the `x` field (truncated to 16 bits); `y` keeps its value.
    pub fn set_x(&mut self, value: u32)
        requires
            old(self).wf(),
        ensures
            final(self).wf(),
            A::x_spec(final(self).bytes()) == value as nat % pow2(16),
            A::y_spec(final(self).bytes()) == A::y_spec(old(self).bytes()),
    {
        write_bits(&mut self.data, 0, 0, 16, value as u64);
        proof {
            lemma_field_value_same_bits(old(self).bytes(), self.data@, 16, 16);
        }
    }

    /// Writes the `y` field (truncated to 16 bits); `x` keeps its value.
    pub fn set_y(&mut self, value: u32)
        requires
            old(self).wf(),
        ensures
            final(self).wf(),
            A::y_spec(final(self).bytes()) == value as nat % pow2(16),
            A::x_spec(final(self).bytes()) == A::x_spec(old(self).bytes()),
    {
        write_bits(&mut self.data, 0, 16, 16, value as u64);
        proof {
            lemma_field_value_same_bits(old(self).bytes(), self.data@, 0, 16);
        }
    }
}

/// An index record storing one 32-bit offset, four bytes wide.
#[derive(Debug, Clone)]
pub struct Idx {
    pub data: Vec<u8>,
}

impl Struct for Idx {
    open spec fn size_spec() -> int {
        4
    }

    open spec fn wf(&self) -> bool {
        self.data@.len() == 4
    }

    open spec fn bytes(&self) -> Seq<u8> {
        self.data@
    }

    proof fn lemma_size_pos() {
    }

    proof fn lemma_wf_len(&self) {
    }

    fn size_in_bytes() -> (r: usize) {
        4
    }

    fn from_bytes(b: &[u8]) -> (r: Self) {
        Idx { data: vstd::slice::slice_to_vec(b) }
    }

    fn as_bytes(&self) -> (r: &[u8]) {
        self.data.as_slice()
    }
}

impl IndexStruct for Idx {
    open spec fn max_value_spec() -> int {
        0xffff_ffff
    }

    open spec fn value_of(b: Seq<u8>) -> int {
        field_value(b, 0, 32) as int
    }

    proof fn lemma_value_bounds(b: Seq<u8>) {
        lemma_field_value_bound(b, 0, 32);
        lemma2_to64();
    }

    fn max_value() -> (r: u64) {
        0xffff_ffff
    }

    fn with_value(v: u64) -> (r: Self) {
        let mut data: Vec<u8> = vec![0u8, 0u8, 0u8, 0u8];
        write_bits(&mut data, 0, 0, 32, v);
        proof {
            lemma2_to64();
        }
        Idx { data }
    }

    fn value(&self) -> (r: u64) {
        proof {
            lemma_field_value_bound(self.data@, 0, 32);
        }
        read_bits(self.data.as_slice(), 0, 0, 32)
    }
}

/// The mutable builder counterpart of [`Idx`].
#[derive(Debug, Clone)]
pub struct IdxMut {
    pub data: Vec<u8>,
}

impl IdxMut {
    /// The record holds exactly four bytes.
    pub open spec fn wf(&self) -> bool {
        self.data@.len() == 4
    }

    /// The record's byte image.
    pub open spec fn bytes(&self) -> Seq<u8> {
        self.data@
    }

    /// A zero-filled index record, storing offset zero.
    pub fn new() -> (r: Self)
        ensures
            r.wf(),
    {
        IdxMut { data: vec![0u8, 0u8, 0u8, 0u8] }
    }

    /// Writes the stored offset (truncated to 32 bits).
    pub fn set_value(&mut self, value: u64)
        requires
            old(self).wf(),
        ensures
            final(self).wf(),
            Idx::value_of(final(self).bytes()) == value as nat % pow2(32),
    {
        write_bits(&mut self.data, 0, 0, 32, value);
    }

    /// The read-only index record with this builder's bytes.
    pub fn to_record(&self) -> (r: Idx)
        requires
            self.wf(),
        ensures
            r.wf(),
            r.bytes() == self.bytes(),
    {
        Idx::from_bytes(self.data.as_slice())
    }
}

/// A tagged-variant family with a single variant: tag `0` selects [`A`].
#[derive(Debug, Clone)]
pub enum Variant {
    A(A),
}

impl VariadicStruct for Variant {
    open spec fn valid_tag(tag: u8) -> bool {
        tag == 0
    }

    open spec fn tag_size(tag: u8) -> int {
        4
    }

    open spec fn wf(&self) -> bool {
        match self {
            Variant::A(a) => a.wf(),
        }
    }

    open spec fn tag(&self) -> u8 {
        0
    }

    open spec fn payload(&self) -> Seq<u8> {
        match self {
            Variant::A(a) => a.bytes(),
        }
    }

    proof fn lemma_tag_size_bounds(tag: u8) {
    }

    proof fn lemma_wf(&self) {
    }

    fn is_valid_tag(tag: u8) -> (r: bool) {
        tag == 0
    }

    fn size_for_tag(tag: u8) -> (r: usize) {
        4
    }

    fn get_tag(&self) -> (r: u8) {
        0
    }

    fn payload_bytes(&self) -> (r: &[u8]) {
        match self {
            Variant::A(a) => a.as_bytes(),
        }
    }

    fn from_tag_bytes(tag: u8, b: &[u8]) -> (r: Self) {
        Variant::A(A::from_bytes(b))
    }
}


/// A one-byte record whose order is partial: the value `255` marks a
/// missing measurement and compares with nothing, not even itself.
#[derive(Debug, Clone)]
pub struct Gauge {
    pub data: Vec<u8>,
}

impl Gauge {
    /// The stored reading of a record with byte image `b`.
    pub open spec fn reading_spec(b: Seq<u8>) -> nat {
        field_value(b, 0, 8)
    }

    /// A record storing the given reading.
    pub fn with_reading(value: u8) -> (r: Self)
        ensures
            r.wf(),
            Self::reading_spec(r.bytes()) == value as nat,
    {
        let mut data: Vec<u8> = vec![0u8];
        write_bits(&mut data, 0, 0, 8, value as u64);
        proof {
            vstd::arithmetic::power2::lemma2_to64();
        }
        Gauge { data }
    }

    /// Reads the stored reading.
    pub fn reading(&self) -> (r: u8)
        requires
            self.wf(),
        ensures
            r as nat == Self::reading_spec(self.bytes()),
    {
        proof {
            lemma_field_value_bound(self.data@, 0, 8);
            vstd::arithmetic::power2::lemma2_to64();
        }
        read_bits(self.data.as_slice(), 0, 0, 8) as u8
    }
}

impl Struct for Gauge {
    open spec fn size_spec() -> int {
        1
    }

    open spec fn wf(&self) -> bool {
        self.data@.len() == 1
    }

    open spec fn bytes(&self) -> Seq<u8> {
        self.data@
    }

    proof fn lemma_size_pos() {
    }

    proof fn lemma_wf_len(&self) {
    }

    fn size_in_bytes() -> (r: usize) {
        1
    }

    fn from_bytes(b: &[u8]) -> (r: Self) {
        Gauge { data: vstd::slice::slice_to_vec(b) }
    }

    fn as_bytes(&self) -> (r: &[u8]) {
        self.data.as_slice()
    }
}

impl SortableStruct for Gauge {
    open spec fn comparable(a: Seq<u8>, b: Seq<u8>) -> bool {
        Self::reading_spec(a) != 255 && Self::reading_spec(b) != 255
    }

    open spec fn le(a: Seq<u8>, b: Seq<u8>) -> bool {
        Self::reading_spec(a) <= Self::reading_spec(b)
    }

    proof fn lemma_total(a: Seq<u8>, b: Seq<u8>) {
    }

    proof fn lemma_le_trans(a: Seq<u8>, b: Seq<u8>, c: Seq<u8>) {
    }

    fn le_bytes(a: &[u8], b: &[u8]) -> (r: Option<bool>) {
        proof {
            lemma_field_value_bound(a@, 0, 8);
            lemma_field_value_bound(b@, 0, 8);
            vstd::arithmetic::power2::lemma2_to64();
        }
        let av = read_bits(a, 0, 0, 8);
        let bv = read_bits(b, 0, 0, 8);
        if av == 255 || bv == 255 {
            None
        } else {
            Some(av <= bv)
        }
    }
}

/// An example archive type, as a code generator would emit it.
pub struct GraphArchive;

impl ArchiveBuilder for GraphArchive {
    open spec fn name_spec() -> Seq<char> {
        "graph"@
    }

    open spec fn schema_spec() -> Seq<char> {
        "archive graph { }"@
    }

    fn archive_name() -> (r: &'static str) {
        "graph"
    }

    fn archive_schema() -> (r: &'static str) {
        "archive graph { }"
    }
}

} // verus!
