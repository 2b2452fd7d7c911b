//! Resource framing over an abstract writable sink.
//!
//! A resource is framed as a fixed-width little-endian size header,
//! followed by the payload bytes, followed by [`PADDING_SIZE`] zero
//! bytes.  [`ResourceHandle`] writes that frame incrementally over any
//! [`Stream`]; [`BytesCursor`] is the in-memory sink.

use crate::bits::{field_value, read_bits, write_bits};
use crate::error::ResourceStorageError;
use vstd::prelude::*;
use vstd::string::{StringExecFns, StringSliceAdditionalSpecFns};

verus! {

/// The little-endian value of the `SIZE_TYPE_BYTES`-wide size header at
/// the front of `b`.
pub open spec fn header_value(b: Seq<u8>) -> nat {
    field_value(b, 0, (crate::SIZE_TYPE_BYTES * 8) as nat)
}

/// `content` with `d` overwritten at position `pos`, growing the content
/// if the write runs past its end.
pub open spec fn write_at(c: Seq<u8>, pos: int, d: Seq<u8>) -> Seq<u8>
    recommends
        0 <= pos <= c.len(),
{
    c.subrange(0, pos) + d + if pos + d.len() < c.len() {
        c.subrange(pos + d.len(), c.len() as int)
    } else {
        Seq::empty()
    }
}

/// A writable, seekable byte sink.
///
/// Storage backends implement this for their output streams; the
/// in-memory backend's [`BytesCursor`] lives here, a file-backed one can
/// live outside the verified crate.
pub trait Stream: Sized {
    /// All bytes the sink holds.
    spec fn content(&self) -> Seq<u8>;

    /// The write position.
    spec fn pos(&self) -> int;

    /// The position never runs past the content.
    proof fn lemma_pos_wf(&self)
        ensures
            0 <= self.pos() <= self.content().len();

    /// Writes all of `data` at the current position, overwriting and
    /// extending as needed.  On failure nothing is promised about the
    /// sink's bytes; the caller must discard the whole output.
    fn write_all(&mut self, data: &[u8]) -> (r: Result<(), ResourceStorageError>)
        ensures
            r is Ok ==> final(self).content() == write_at(
                old(self).content(),
                old(self).pos(),
                data@,
            ) && final(self).pos() == old(self).pos() + data@.len(),
;

    /// Moves the write position back to the start of the sink.
    fn seek_begin(&mut self) -> (r: Result<(), ResourceStorageError>)
        ensures
            r is Ok ==> final(self).content() == old(self).content() && final(self).pos() == 0,
;
}

/// An in-memory byte sink: a growable buffer with a write position.
#[derive(Debug)]
pub struct BytesCursor {
    /// The bytes written so far.
    pub data: Vec<u8>,
    /// The write position.
    pub pos: usize,
}

impl BytesCursor {
    /// An empty sink.
    pub fn new() -> (r: Self)
        ensures
            r.content() == Seq::<u8>::empty(),
            r.pos() == 0,
            r.pos as int <= r.data@.len(),
    {
        BytesCursor { data: Vec::new(), pos: 0 }
    }

    /// The buffer behind the cursor, for in-place inspection or reuse.
    pub fn get_mut(&mut self) -> (r: &mut Vec<u8>)
        ensures
            *r == old(self).data,
            final(self).data == *final(r),
            final(self).pos == old(self).pos,
    {
        &mut self.data
    }

    /// Takes the buffer out of the cursor.
    pub fn into_data(self) -> (r: Vec<u8>)
        ensures
            r@ == self.content(),
    {
        self.data
    }
}

impl Stream for BytesCursor {
    open spec fn content(&self) -> Seq<u8> {
        self.data@
    }

    open spec fn pos(&self) -> int {
        if self.pos as int <= self.data@.len() {
            self.pos as int
        } else {
            self.data@.len() as int
        }
    }

    proof fn lemma_pos_wf(&self) {
    }

    fn write_all(&mut self, data: &[u8]) -> (r: Result<(), ResourceStorageError>) {
        let n = data.len();
        let ghost orig = self.data@;
        let ghost p0 = self.pos();
        let start = if self.pos <= self.data.len() {
            self.pos
        } else {
            self.data.len()
        };
        if n > usize::MAX - start {
            return Err(
                ResourceStorageError::Io { message: String::from_str("write too large") },
            );
        }
        let mut k: usize = 0;
        while k < n
            invariant
                k <= n,
                n == data@.len(),
                start == p0,
                0 <= p0 <= orig.len(),
                start + n <= usize::MAX,
                self.data@.len() == if p0 + k > orig.len() {
                    p0 + k
                } else {
                    orig.len() as int
                },
                forall|j: int|
                    0 <= j < self.data@.len() && !(p0 <= j < p0 + k) ==> self.data@[j] == orig[j],
                forall|j: int| p0 <= j < p0 + k ==> self.data@[j] == data@[j - p0],
            decreases n - k,
        {
            if start + k < self.data.len() {
                self.data[start + k] = data[k];
            } else {
                self.data.push(data[k]);
            }
            k = k + 1;
        }
        self.pos = start + n;
        proof {
            assert(self.content() =~= write_at(orig, p0, data@));
        }
        Ok(())
    }

    fn seek_begin(&mut self) -> (r: Result<(), ResourceStorageError>) {
        self.pos = 0;
        Ok(())
    }
}

/// An owned read-only chunk of resource bytes.
#[derive(Debug, Clone)]
pub struct MemoryDescriptor {
    /// The bytes of the chunk.
    pub bytes: Vec<u8>,
}

impl View for MemoryDescriptor {
    type V = Seq<u8>;

    open spec fn view(&self) -> Seq<u8> {
        self.bytes@
    }
}

impl MemoryDescriptor {
    /// Wraps a byte buffer as a descriptor.
    pub fn new(bytes: Vec<u8>) -> (r: Self)
        ensures
            r@ == bytes@,
    {
        MemoryDescriptor { bytes }
    }

    /// The chunk's bytes.
    pub fn data(&self) -> (r: &[u8])
        ensures
            r@ == self@,
    {
        self.bytes.as_slice()
    }

    /// Size of the chunk in bytes.
    pub fn size_in_bytes(&self) -> (r: usize)
        ensures
            r == self@.len(),
    {
        self.bytes.len()
    }

    /// The chunk's bytes; same as [`Self::data`].
    pub fn as_bytes(&self) -> (r: &[u8])
        ensures
            r@ == self@,
    {
        self.bytes.as_slice()
    }
}

impl Default for MemoryDescriptor {
    /// An empty chunk.
    fn default() -> (r: Self)
        ensures
            r@ == Seq::<u8>::empty(),
    {
        MemoryDescriptor { bytes: Vec::new() }
    }
}

/// Builds the `SIZE_TYPE_BYTES`-wide little-endian size header.
fn size_header_bytes(value: u64) -> (r: Vec<u8>)
    ensures
        r@.len() == crate::SIZE_TYPE_BYTES,
        header_value(r@) == value as nat,
{
    let mut buffer: Vec<u8> = vec![0u8, 0u8, 0u8, 0u8, 0u8, 0u8, 0u8, 0u8];
    write_bits(&mut buffer, 0, 0, 64, value);
    proof {
        vstd::arithmetic::power2::lemma2_to64_rest();
    }
    buffer
}

/// Reads the size header at the front of `b`.
pub fn read_size_header(b: &[u8]) -> (r: u64)
    requires
        b@.len() >= crate::SIZE_TYPE_BYTES,
    ensures
        r as nat == header_value(b@.subrange(0, crate::SIZE_TYPE_BYTES as int)),
{
    let head = vstd::slice::slice_subrange(b, 0, crate::SIZE_TYPE_BYTES);
    read_bits(head, 0, 0, 64)
}

/// Writes the trailing zero padding of a resource frame.
fn write_padding<S: Stream>(stream: &mut S) -> (r: Result<(), ResourceStorageError>)
    ensures
        r is Ok ==> {
            &&& final(stream).content() == write_at(
                old(stream).content(),
                old(stream).pos(),
                Seq::new(crate::PADDING_SIZE as nat, |i: int| 0u8),
            )
            &&& final(stream).pos() == old(stream).pos() + crate::PADDING_SIZE
        },
{
    let zeroes: Vec<u8> = vec![0u8, 0u8, 0u8, 0u8, 0u8, 0u8, 0u8, 0u8];
    proof {
        assert(zeroes@ =~= Seq::new(crate::PADDING_SIZE as nat, |i: int| 0u8));
    }
    stream.write_all(zeroes.as_slice())
}

/// Writes one whole resource frame: size header, payload, padding.
pub fn write_to_stream<S: Stream>(data: &[u8], stream: &mut S) -> (r: Result<
    (),
    ResourceStorageError,
>)
    requires
        old(stream).content().len() == 0,
        old(stream).pos() == 0,
    ensures
        r is Ok ==> is_framed(final(stream).content(), data@),
{
    let header = size_header_bytes(data.len() as u64);
    let ghost hdr = header@;
    let r = stream.write_all(header.as_slice());
    if r.is_err() {
        return r;
    }
    let ghost after_header = stream.content();
    proof {
        assert(after_header =~= hdr);
        stream.lemma_pos_wf();
    }
    let r = stream.write_all(data);
    if r.is_err() {
        return r;
    }
    let ghost after_data = stream.content();
    proof {
        assert(after_data =~= hdr + data@);
        stream.lemma_pos_wf();
    }
    let r = write_padding(stream);
    if r.is_err() {
        return r;
    }
    proof {
        let c = stream.content();
        let hw = crate::SIZE_TYPE_BYTES as int;
        let n = data@.len() as int;
        let pad = Seq::new(crate::PADDING_SIZE as nat, |i: int| 0u8);
        assert(c =~= hdr + data@ + pad);
        assert(c.subrange(0, hw) =~= hdr);
        assert(c.subrange(hw, hw + n) =~= data@);
    }
    Ok(())
}

/// Whether `content` is the complete resource frame of `payload`: header
/// holding the payload's length, the payload, then zero padding.
pub open spec fn is_framed(content: Seq<u8>, payload: Seq<u8>) -> bool {
    let hw = crate::SIZE_TYPE_BYTES as int;
    &&& content.len() == hw + payload.len() + crate::PADDING_SIZE
    &&& header_value(content.subrange(0, hw)) == payload.len()
    &&& content.subrange(hw, hw + payload.len() as int) == payload
    &&& forall|j: int| hw + payload.len() <= j < content.len() ==> content[j] == 0
}


/// A handle to a resource opened for writing.
///
/// The handle reserves the size header at the front of its sink, appends
/// payload bytes after it, and on close writes the padding and patches
/// the header with the final payload size, sealing the frame.  A closed
/// handle rejects further writes.
pub struct ResourceHandle<S> {
    /// The sink, while the handle is open.
    pub stream: Option<S>,
    /// Number of payload bytes written so far.
    pub size_in_bytes: usize,
    /// The payload bytes written so far.
    pub payload: Ghost<Seq<u8>>,
}

impl<S: Stream> ResourceHandle<S> {
    /// Whether the handle still accepts writes.
    pub open spec fn is_open_spec(&self) -> bool {
        self.stream is Some
    }

    /// The payload bytes written so far.
    pub open spec fn written(&self) -> Seq<u8> {
        self.payload@
    }

    /// The bytes of the handle's sink, while it is open.
    pub open spec fn sink_content(&self) -> Seq<u8> {
        match self.stream {
            Some(s) => s.content(),
            None => Seq::empty(),
        }
    }

    /// While open, the sink holds the reserved header followed by the
    /// payload written so far, and the byte count matches.
    pub open spec fn wf(&self) -> bool {
        match self.stream {
            Some(s) => {
                &&& s.content().len() == crate::SIZE_TYPE_BYTES + self.payload@.len()
                &&& s.content().subrange(
                    crate::SIZE_TYPE_BYTES as int,
                    s.content().len() as int,
                ) == self.payload@
                &&& s.pos() == s.content().len()
                &&& self.size_in_bytes as int == self.payload@.len()
            },
            None => true,
        }
    }

    /// Opens a handle over a fresh sink, reserving the size header.
    pub fn new(stream: S) -> (r: Result<Self, ResourceStorageError>)
        requires
            stream.content().len() == 0,
            stream.pos() == 0,
        ensures
            r matches Ok(h) ==> {
                &&& h.wf()
                &&& h.is_open_spec()
                &&& h.written() == Seq::<u8>::empty()
                &&& h.sink_content().len() == crate::SIZE_TYPE_BYTES
                &&& header_value(h.sink_content()) == 0
            },
    {
        let mut stream = stream;
        let header = size_header_bytes(0);
        match stream.write_all(header.as_slice()) {
            Ok(_) => {
                proof {
                    let c = stream.content();
                    assert(c =~= header@);
                    assert(c.subrange(crate::SIZE_TYPE_BYTES as int, c.len() as int) =~= Seq::<
                        u8,
                    >::empty());
                }
                Ok(
                    ResourceHandle {
                        stream: Some(stream),
                        size_in_bytes: 0,
                        payload: Ghost(Seq::empty()),
                    },
                )
            },
            Err(e) => Err(e),
        }
    }

    /// Whether the handle still accepts writes.
    pub fn is_open(&self) -> (r: bool)
        ensures
            r == self.is_open_spec(),
    {
        self.stream.is_some()
    }

    /// Appends payload bytes.  A closed handle, or a failing sink,
    /// reports an error without touching the accumulated byte count.
    pub fn write(&mut self, data: &[u8]) -> (r: Result<(), ResourceStorageError>)
        requires
            old(self).wf(),
        ensures
            r is Ok ==> {
                &&& old(self).is_open_spec()
                &&& final(self).wf()
                &&& final(self).is_open_spec()
                &&& final(self).written() == old(self).written() + data@
            },
            r is Err ==> {
                &&& final(self).size_in_bytes == old(self).size_in_bytes
                &&& final(self).written() == old(self).written()
                &&& final(self).is_open_spec() == old(self).is_open_spec()
            },
            !old(self).is_open_spec() ==> r is Err,
    {
        match self.stream.take() {
            None => Err(ResourceStorageError::Io { message: String::from_str("stream closed") }),
            Some(mut s) => {
                if data.len() > usize::MAX - self.size_in_bytes {
                    self.stream = Some(s);
                    return Err(
                        ResourceStorageError::Io { message: String::from_str("write too large") },
                    );
                }
                proof {
                    s.lemma_pos_wf();
                }
                let ghost c0 = s.content();
                match s.write_all(data) {
                    Ok(_) => {
                        proof {
                            assert(s.content() =~= c0 + data@);
                        }
                        self.size_in_bytes = self.size_in_bytes + data.len();
                        self.stream = Some(s);
                        proof {
                            self.payload@ = self.payload@ + data@;
                            let c = s.content();
                            assert(c.subrange(crate::SIZE_TYPE_BYTES as int, c.len() as int) =~= (
                            c0.subrange(crate::SIZE_TYPE_BYTES as int, c0.len() as int) + data@));
                        }
                        Ok(())
                    },
                    Err(e) => {
                        self.stream = Some(s);
                        Err(e)
                    },
                }
            },
        }
    }

    /// Seals the frame: writes the padding, patches the header with the
    /// final payload size, and hands the sealed sink back.  A closed
    /// handle reports an error; so does a failing sink, and the resource
    /// must then be discarded.
    pub fn close(&mut self) -> (r: Result<S, ResourceStorageError>)
        requires
            old(self).wf(),
        ensures
            r matches Ok(s) ==> {
                &&& old(self).is_open_spec()
                &&& !final(self).is_open_spec()
                &&& is_framed(s.content(), old(self).written())
            },
            !old(self).is_open_spec() ==> r is Err,
            r is Err ==> final(self).written() == old(self).written()
                && final(self).size_in_bytes == old(self).size_in_bytes,
    {
        match self.stream.take() {
            None => Err(ResourceStorageError::Io { message: String::from_str("stream closed") }),
            Some(mut s) => {
                let ghost c0 = s.content();
                let ghost pay = self.payload@;
                proof {
                    s.lemma_pos_wf();
                }
                match write_padding(&mut s) {
                    Ok(_) => {},
                    Err(e) => {
                        self.stream = Some(s);
                        return Err(e);
                    },
                }
                let ghost c1 = s.content();
                match s.seek_begin() {
                    Ok(_) => {},
                    Err(e) => {
                        self.stream = Some(s);
                        return Err(e);
                    },
                }
                let header = size_header_bytes(self.size_in_bytes as u64);
                match s.write_all(header.as_slice()) {
                    Ok(_) => {},
                    Err(e) => {
                        self.stream = Some(s);
                        return Err(e);
                    },
                }
                proof {
                    let hw = crate::SIZE_TYPE_BYTES as int;
                    let pad = Seq::new(crate::PADDING_SIZE as nat, |i: int| 0u8);
                    assert(c1 =~= c0 + pad);
                    let c2 = s.content();
                    assert(c2 =~= header@ + c1.subrange(hw, c1.len() as int));
                    assert(c2.subrange(0, hw) =~= header@);
                    assert(c2.subrange(hw, hw + pay.len() as int) =~= pay);
                    assert forall|j: int| hw + pay.len() <= j < c2.len() implies c2[j] == 0u8 by {
                        assert(c2[j] == c1[j]);
                        if j < c0.len() {
                            assert(c1[j] == c0[j]);
                        } else {
                            assert(c1[j] == pad[j - c0.len()]);
                        }
                    }
                    assert(is_framed(c2, pay));
                }
                Ok(s)
            },
        }
    }
}


/// Whether `c` is long enough for a frame and its header matches its
/// physical length.  This is the read side's integrity check; the zero
/// padding is not inspected.
pub open spec fn frame_consistent(c: Seq<u8>) -> bool {
    &&& c.len() >= crate::SIZE_TYPE_BYTES + crate::PADDING_SIZE
    &&& header_value(c.subrange(0, crate::SIZE_TYPE_BYTES as int)) == c.len()
        - crate::SIZE_TYPE_BYTES - crate::PADDING_SIZE
}

/// The payload of a consistent frame: the bytes between the header and
/// the padding.
pub open spec fn frame_payload(c: Seq<u8>) -> Seq<u8>
    recommends
        frame_consistent(c),
{
    c.subrange(crate::SIZE_TYPE_BYTES as int, c.len() - crate::PADDING_SIZE)
}

/// A frame written for `payload` is consistent and reads back as
/// exactly `payload`: the writer's framing and the reader's check are
/// two sides of one format.
pub proof fn lemma_framed_reads_back(c: Seq<u8>, payload: Seq<u8>)
    requires
        is_framed(c, payload),
    ensures
        frame_consistent(c),
        frame_payload(c) == payload,
{
    assert(frame_payload(c) =~= payload);
}

/// A resource framed for a sequence of records reads back record for
/// record: the frame is consistent, and the view over its payload
/// yields byte-identical records in append order.
pub proof fn lemma_framed_records_read_back(c: Seq<u8>, recs: Seq<Seq<u8>>, s: int)
    requires
        is_framed(c, recs.flatten()),
        1 <= s,
        forall|i: int| 0 <= i < recs.len() ==> #[trigger] recs[i].len() == s,
    ensures
        frame_consistent(c),
        frame_payload(c).len() == recs.len() * s,
        forall|i: int|
            0 <= i < recs.len() ==> #[trigger] crate::arrayview::record_at(
                frame_payload(c),
                s,
                i,
            ) == recs[i],
{
    lemma_framed_reads_back(c, recs.flatten());
    crate::arrayview::lemma_records_read_back(recs, s);
}

/// Compares two byte slices for equality.
pub fn bytes_equal(a: &[u8], b: &[u8]) -> (r: bool)
    ensures
        r == (a@ == b@),
{
    if a.len() != b.len() {
        assert(a@ != b@);
        return false;
    }
    let n = a.len();
    let mut k: usize = 0;
    while k < n
        invariant
            k <= n,
            n == a@.len() == b@.len(),
            forall|j: int| 0 <= j < k ==> a@[j] == b@[j],
        decreases n - k,
    {
        if a[k] != b[k] {
            return false;
        }
        k = k + 1;
    }
    proof {
        assert(a@ =~= b@);
    }
    true
}

/// Relies on str::from_utf8: it accepts exactly the valid UTF-8 byte
/// sequences, and decodes them to the characters they encode.
#[verifier::external_body]
fn bytes_as_str(b: &[u8]) -> (r: Option<&str>)
    ensures
        r matches Some(s) ==> vstd::utf8::valid_utf8(b@) && s@ == vstd::utf8::decode_utf8(b@),
        r is None ==> !vstd::utf8::valid_utf8(b@),
{
    core::str::from_utf8(b).ok()
}

/// One line of a computed diff: present only on the left, on both
/// sides, or only on the right.
pub enum DiffFragment {
    /// A line only the left text has.
    Left(String),
    /// A line both texts share.
    Both(String),
    /// A line only the right text has.
    Right(String),
}

/// The plain encoding of a diff fragment: a side marker and the line.
pub open spec fn fragment_view(f: DiffFragment) -> (u8, Seq<char>) {
    match f {
        DiffFragment::Left(l) => (0u8, l@),
        DiffFragment::Both(l) => (1u8, l@),
        DiffFragment::Right(l) => (2u8, l@),
    }
}

/// The plain encoding of a fragment sequence.
pub open spec fn fragments_view(fs: Seq<DiffFragment>) -> Seq<(u8, Seq<char>)> {
    fs.map_values(|f: DiffFragment| fragment_view(f))
}

/// The line diff of two texts, as the `diff` crate computes it.
pub uninterp spec fn spec_line_diff(left: Seq<char>, right: Seq<char>) -> Seq<(u8, Seq<char>)>;

/// Relies on diff::lines: the computed line diff depends on the two
/// texts alone, and equal texts diff to common lines only.
#[verifier::external_body]
fn diff_lines(left: &str, right: &str) -> (r: Vec<DiffFragment>)
    ensures
        fragments_view(r@) == spec_line_diff(left@, right@),
        left@ == right@ ==> forall|i: int|
            0 <= i < r@.len() ==> (#[trigger] fragment_view(r@[i])).0 == 1,
{
    diff::lines(left, right)
        .into_iter()
        .map(|f| match f {
            diff::Result::Left(l) => DiffFragment::Left(l.to_string()),
            diff::Result::Both(l, r) => DiffFragment::Both(l.to_string()),
            diff::Result::Right(r) => DiffFragment::Right(r.to_string()),
        })
        .collect()
}

/// One rendered diff line: the side's marker character, then the line.
pub open spec fn rendered_fragment(f: (u8, Seq<char>)) -> Seq<char> {
    let marker: Seq<char> = if f.0 == 0 {
        seq!['-']
    } else if f.0 == 1 {
        seq![' ']
    } else {
        seq!['+']
    };
    marker + f.1
}

/// The rendered diff text: one marked line per fragment, joined with
/// newlines.
pub open spec fn rendered_diff(fs: Seq<(u8, Seq<char>)>) -> Seq<char>
    decreases fs.len(),
{
    if fs.len() == 0 {
        Seq::empty()
    } else if fs.len() == 1 {
        rendered_fragment(fs[0])
    } else {
        rendered_diff(fs.drop_last()) + seq!['\n'] + rendered_fragment(fs.last())
    }
}

/// A human-readable line diff of two texts: `-` marks lines only the
/// left text has, `+` lines only the right one has, a space the shared
/// lines.  Equal texts diff to common-marked lines only.
pub fn diff(left: &str, right: &str) -> (r: String)
    ensures
        r@ == rendered_diff(spec_line_diff(left@, right@)),
        left@ == right@ ==> forall|i: int|
            0 <= i < spec_line_diff(left@, right@).len() ==> (#[trigger] spec_line_diff(
                left@,
                right@,
            )[i]).0 == 1,
{
    let fragments = diff_lines(left, right);
    proof {
        if left@ == right@ {
            assert forall|i: int|
                0 <= i < spec_line_diff(left@, right@).len() implies (#[trigger] spec_line_diff(
                left@,
                right@,
            )[i]).0 == 1 by {
                assert(spec_line_diff(left@, right@)[i] == fragment_view(fragments@[i]));
            }
        }
    }
    let n = fragments.len();
    let mut out = String::new();
    let mut k: usize = 0;
    while k < n
        invariant
            k <= n,
            n == fragments@.len(),
            fragments_view(fragments@) == spec_line_diff(left@, right@),
            out@ == rendered_diff(fragments_view(fragments@).take(k as int)),
        decreases n - k,
    {
        if k > 0 {
            out.append("\n");
            proof {
                reveal_strlit("\n");
            }
        }
        match &fragments[k] {
            DiffFragment::Left(l) => {
                out.append("-");
                out.append(l.as_str());
                proof {
                    reveal_strlit("-");
                }
            },
            DiffFragment::Both(l) => {
                out.append(" ");
                out.append(l.as_str());
                proof {
                    reveal_strlit(" ");
                }
            },
            DiffFragment::Right(l) => {
                out.append("+");
                out.append(l.as_str());
                proof {
                    reveal_strlit("+");
                }
            },
        }
        k = k + 1;
        proof {
            let fv = fragments_view(fragments@);
            assert(fv.take(k as int).drop_last() =~= fv.take(k as int - 1));
            assert(fv.take(k as int).last() == fv[k as int - 1]);
            assert(fv[k as int - 1] == fragment_view(fragments@[k as int - 1]));
        }
    }
    proof {
        assert(fragments_view(fragments@).take(n as int) =~= fragments_view(fragments@));
    }
    out
}

/// Checks a resource's frame and stored schema against the expected
/// schema, and extracts the payload.
///
/// Exactly one outcome holds for given bytes: an inconsistent frame is
/// `UnexpectedDataSize`; a schema differing from the expected text is
/// `SchemaMismatch` when it is valid UTF-8 (carrying a line diff) and
/// `InvalidText` when it is not; a consistent frame with the schema
/// matching byte for byte yields the payload between header and padding.
pub fn check_schema_and_extract(
    resource_name: &str,
    data: &MemoryDescriptor,
    schema_bytes: &[u8],
    expected_schema: &str,
) -> (r: Result<MemoryDescriptor, ResourceStorageError>)
    ensures
        match r {
            Ok(d) => {
                &&& frame_consistent(data@)
                &&& schema_bytes@ == expected_schema.spec_bytes()
                &&& d@ == frame_payload(data@)
            },
            Err(e) => match e {
                ResourceStorageError::UnexpectedDataSize => !frame_consistent(data@),
                ResourceStorageError::InvalidText => {
                    &&& frame_consistent(data@)
                    &&& schema_bytes@ != expected_schema.spec_bytes()
                    &&& !vstd::utf8::valid_utf8(schema_bytes@)
                },
                ResourceStorageError::SchemaMismatch { resource_name: n, diff: d } => {
                    &&& frame_consistent(data@)
                    &&& schema_bytes@ != expected_schema.spec_bytes()
                    &&& vstd::utf8::valid_utf8(schema_bytes@)
                    &&& n@ == resource_name@
                    &&& d@ == rendered_diff(
                        spec_line_diff(
                            vstd::utf8::decode_utf8(schema_bytes@),
                            expected_schema@,
                        ),
                    )
                },
                _ => false,
            },
        },
{
    let phys = data.size_in_bytes();
    if phys < crate::SIZE_TYPE_BYTES + crate::PADDING_SIZE {
        return Err(ResourceStorageError::UnexpectedDataSize);
    }
    let size = read_size_header(data.data());
    if size != (phys - crate::SIZE_TYPE_BYTES - crate::PADDING_SIZE) as u64 {
        return Err(ResourceStorageError::UnexpectedDataSize);
    }
    if bytes_equal(schema_bytes, expected_schema.as_bytes()) {
        let payload = vstd::slice::slice_subrange(
            data.data(),
            crate::SIZE_TYPE_BYTES,
            phys - crate::PADDING_SIZE,
        );
        Ok(MemoryDescriptor::new(vstd::slice::slice_to_vec(payload)))
    } else {
        match bytes_as_str(schema_bytes) {
            None => Err(ResourceStorageError::InvalidText),
            Some(stored) => Err(
                ResourceStorageError::SchemaMismatch {
                    resource_name: String::from_str(resource_name),
                    diff: diff(stored, expected_schema),
                },
            ),
        }
    }
}


/// The abstract state of a resource storage: the physical bytes under
/// each key, and the set of keys already opened read-only.
pub struct StorageModel {
    /// Physical bytes of each stored resource, by full key.
    pub resources: Map<Seq<char>, Seq<u8>>,
    /// Keys frozen by a read-only open; they reject mutable access.
    pub frozen: Set<Seq<char>>,
}

/// Hierarchical resource storage.
///
/// Keys are slash-separated hierarchical names; every logical resource
/// is stored under its name, and its schema text under the companion
/// `<name>.schema` key.  The write side hands out fresh sinks and
/// receives them back sealed; the read side hands out owned descriptors
/// and freezes what it read.
pub trait ResourceStorage: Sized {
    /// The sink type this storage writes through.
    type Sink: Stream;

    /// The storage's abstract state.
    spec fn model(&self) -> StorageModel;

    /// The full key of a resource name under this storage's root path.
    spec fn full_key(&self, name: Seq<char>) -> Seq<char>;

    /// Distinct names have distinct keys.
    proof fn lemma_full_key_injective(&self, n1: Seq<char>, n2: Seq<char>)
        requires
            n1 != n2,
        ensures
            self.full_key(n1) != self.full_key(n2);

    /// Whether a resource with this name is in the storage.
    fn resource_exists(&self, name: &str) -> (r: bool)
        ensures
            r == self.model().resources.dom().contains(self.full_key(name@)),
;

    /// Opens a fresh sink for the resource; the bytes reach the
    /// storage when the sealed sink is handed back to `store_stream`.
    fn create_output_stream(&mut self, name: &str) -> (r: Result<
        Self::Sink,
        ResourceStorageError,
    >)
        ensures
            final(self).model() == old(self).model(),
            forall|n: Seq<char>| final(self).full_key(n) == old(self).full_key(n),
            r matches Ok(s) ==> s.content() == Seq::<u8>::empty() && s.pos() == 0,
;

    /// Stores a sink's bytes under the resource's name.
    fn store_stream(&mut self, name: &str, sink: Self::Sink) -> (r: Result<
        (),
        ResourceStorageError,
    >)
        ensures
            forall|n: Seq<char>| final(self).full_key(n) == old(self).full_key(n),
            r is Ok ==> final(self).model() == (StorageModel {
                resources: old(self).model().resources.insert(
                    old(self).full_key(name@),
                    sink.content(),
                ),
                frozen: old(self).model().frozen,
            }),
            r is Err ==> final(self).model() == old(self).model(),
;

    /// Reads a resource's physical bytes, freezing it read-only.
    ///
    /// A missing resource is exactly the `NotFound` outcome.
    fn read_resource(&mut self, name: &str) -> (r: Result<
        MemoryDescriptor,
        ResourceStorageError,
    >)
        ensures
            forall|n: Seq<char>| final(self).full_key(n) == old(self).full_key(n),
            final(self).model().resources == old(self).model().resources,
            r matches Ok(d) ==> {
                &&& old(self).model().resources.dom().contains(old(self).full_key(name@))
                &&& d@ == old(self).model().resources[old(self).full_key(name@)]
                &&& final(self).model().frozen == old(self).model().frozen.insert(
                    old(self).full_key(name@),
                )
            },
            r is Err ==> final(self).model() == old(self).model(),
            (r matches Err(e) && e matches ResourceStorageError::NotFound { .. }) <==> !old(
                self,
            ).model().resources.dom().contains(old(self).full_key(name@)),
            r matches Err(ResourceStorageError::NotFound { resource_name: rn }) ==> rn@ == old(
                self,
            ).full_key(name@),
;

    /// Opens a resource for mutation, taking its sink back out of the
    /// storage.
    ///
    /// A resource already frozen by a read-only open is exactly the
    /// `PermissionDenied` outcome; a missing one exactly `NotFound`.
    fn read_resource_mut(&mut self, name: &str) -> (r: Result<
        Self::Sink,
        ResourceStorageError,
    >)
        ensures
            forall|n: Seq<char>| final(self).full_key(n) == old(self).full_key(n),
            r matches Ok(s) ==> {
                &&& old(self).model().resources.dom().contains(old(self).full_key(name@))
                &&& !old(self).model().frozen.contains(old(self).full_key(name@))
                &&& s.content() == old(self).model().resources[old(self).full_key(name@)]
                &&& final(self).model() == (StorageModel {
                    resources: old(self).model().resources.remove(old(self).full_key(name@)),
                    frozen: old(self).model().frozen,
                })
            },
            r is Err ==> final(self).model() == old(self).model(),
            (r matches Err(e) && e matches ResourceStorageError::NotFound { .. }) <==> !old(
                self,
            ).model().resources.dom().contains(old(self).full_key(name@)),
            (r matches Err(e) && e matches ResourceStorageError::PermissionDenied { .. }) <==> {
                &&& old(self).model().resources.dom().contains(old(self).full_key(name@))
                &&& old(self).model().frozen.contains(old(self).full_key(name@))
            },
            r matches Err(ResourceStorageError::NotFound { resource_name: rn }) ==> rn@ == old(
                self,
            ).full_key(name@),
;

    /// A storage rooted at a subdirectory of this one: an empty storage
    /// whose keys live below `dir` under this storage's root.
    fn subdir(&self, dir: &str) -> (r: Self)
        ensures
            r.model().resources == Map::<Seq<char>, Seq<u8>>::empty(),
            r.model().frozen == Set::<Seq<char>>::empty(),
            forall|n: Seq<char>| #[trigger] r.full_key(n) == self.full_key(dir@ + "/"@ + n),
;

    /// Writes a resource: the framed data under `name`, and the schema
    /// text, raw, under `name.schema`.
    fn write(&mut self, resource_name: &str, schema: &str, data: &[u8]) -> (r: Result<
        (),
        ResourceStorageError,
    >)
        ensures
            forall|n: Seq<char>| final(self).full_key(n) == old(self).full_key(n),
            r is Ok ==> {
                let key = old(self).full_key(resource_name@);
                let skey = old(self).full_key(resource_name@ + ".schema"@);
                &&& final(self).model().frozen == old(self).model().frozen
                &&& final(self).model().resources.dom() == old(
                    self,
                ).model().resources.dom().insert(key).insert(skey)
                &&& is_framed(final(self).model().resources[key], data@)
                &&& final(self).model().resources[skey] == schema.spec_bytes()
                &&& key != skey
                &&& forall|k: Seq<char>|
                    k != key && k != skey && old(self).model().resources.dom().contains(k)
                        ==> final(self).model().resources[k] == old(self).model().resources[k]
            },
    {
        let ghost key = self.full_key(resource_name@);
        let ghost skey = self.full_key(resource_name@ + ".schema"@);
        let ghost resources0 = self.model().resources;
        let mut sink = self.create_output_stream(resource_name)?;
        write_to_stream(data, &mut sink)?;
        let ghost framed = sink.content();
        self.store_stream(resource_name, sink)?;
        let ghost resources1 = self.model().resources;
        let schema_name = String::from_str(resource_name).concat(".schema");
        let mut sink = self.create_output_stream(schema_name.as_str())?;
        write_schema(schema, &mut sink)?;
        proof {
            assert(sink.content() =~= schema.spec_bytes());
        }
        self.store_stream(schema_name.as_str(), sink)?;
        proof {
            reveal_strlit(".schema");
            assert((resource_name@ + ".schema"@).len() == resource_name@.len() + 7);
            self.lemma_full_key_injective(resource_name@, resource_name@ + ".schema"@);
            assert(resources1 == resources0.insert(key, framed));
            assert(self.model().resources == resources1.insert(skey, schema.spec_bytes()));
            assert(self.model().resources.dom() =~= resources0.dom().insert(key).insert(skey));
        }
        Ok(())
    }

    /// Reads a resource and checks its stored schema against the
    /// expected one; on success the returned descriptor holds exactly
    /// the payload between the frame's header and padding.
    fn read_and_check_schema(&mut self, resource_name: &str, expected_schema: &str) -> (r: Result<
        MemoryDescriptor,
        ResourceStorageError,
    >)
        ensures
            forall|n: Seq<char>| final(self).full_key(n) == old(self).full_key(n),
            final(self).model().resources == old(self).model().resources,
            ({
                let key = old(self).full_key(resource_name@);
                let skey = old(self).full_key(resource_name@ + ".schema"@);
                let resources = old(self).model().resources;
                &&& match r {
                    Ok(d) => {
                        &&& resources.dom().contains(key)
                        &&& resources.dom().contains(skey)
                        &&& frame_consistent(resources[key])
                        &&& d@ == frame_payload(resources[key])
                        &&& resources[skey] == expected_schema.spec_bytes()
                    },
                    Err(e) => match e {
                        ResourceStorageError::NotFound { resource_name: rn } => {
                            &&& !resources.dom().contains(key) || !resources.dom().contains(skey)
                            &&& rn@ == key || rn@ == skey
                        },
                        ResourceStorageError::UnexpectedDataSize => {
                            &&& resources.dom().contains(key)
                            &&& resources.dom().contains(skey)
                            &&& !frame_consistent(resources[key])
                        },
                        ResourceStorageError::InvalidText => {
                            &&& resources.dom().contains(key)
                            &&& resources.dom().contains(skey)
                            &&& frame_consistent(resources[key])
                            &&& resources[skey] != expected_schema.spec_bytes()
                            &&& !vstd::utf8::valid_utf8(resources[skey])
                        },
                        ResourceStorageError::SchemaMismatch { resource_name: rn, diff: d } => {
                            &&& resources.dom().contains(key)
                            &&& resources.dom().contains(skey)
                            &&& frame_consistent(resources[key])
                            &&& resources[skey] != expected_schema.spec_bytes()
                            &&& vstd::utf8::valid_utf8(resources[skey])
                            &&& rn@ == resource_name@
                            &&& d@ == rendered_diff(
                                spec_line_diff(
                                    vstd::utf8::decode_utf8(resources[skey]),
                                    expected_schema@,
                                ),
                            )
                        },
                        ResourceStorageError::Io { .. } => resources.dom().contains(key),
                        _ => false,
                    },
                }
                &&& (!resources.dom().contains(key) || !resources.dom().contains(skey)) ==> r
                    is Err
                &&& !resources.dom().contains(key) ==> (r matches Err(e)
                    && e matches ResourceStorageError::NotFound { .. })
            }),
    {
        let data = match self.read_resource(resource_name) {
            Ok(d) => d,
            Err(e) => {
                return Err(
                    match e {
                        ResourceStorageError::NotFound { resource_name: n } => {
                            ResourceStorageError::NotFound { resource_name: n }
                        },
                        ResourceStorageError::Io { message } => ResourceStorageError::Io {
                            message,
                        },
                        _ => ResourceStorageError::Io {
                            message: String::from_str("resource read failed"),
                        },
                    },
                );
            },
        };
        let schema_name = String::from_str(resource_name).concat(".schema");
        let schema = match self.read_resource(schema_name.as_str()) {
            Ok(d) => d,
            Err(e) => {
                return Err(
                    match e {
                        ResourceStorageError::NotFound { resource_name: n } => {
                            ResourceStorageError::NotFound { resource_name: n }
                        },
                        ResourceStorageError::Io { message } => ResourceStorageError::Io {
                            message,
                        },
                        _ => ResourceStorageError::Io {
                            message: String::from_str("resource read failed"),
                        },
                    },
                );
            },
        };
        check_schema_and_extract(resource_name, &data, schema.data(), expected_schema)
    }

    /// Same as [`Self::read_and_check_schema`]: opens a resource for
    /// reading and checks its schema.
    fn read(&mut self, resource_name: &str, schema: &str) -> (r: Result<
        MemoryDescriptor,
        ResourceStorageError,
    >)
        ensures
            forall|n: Seq<char>| final(self).full_key(n) == old(self).full_key(n),
            final(self).model().resources == old(self).model().resources,
            r matches Ok(d) ==> {
                let key = old(self).full_key(resource_name@);
                &&& old(self).model().resources.dom().contains(key)
                &&& frame_consistent(old(self).model().resources[key])
                &&& d@ == frame_payload(old(self).model().resources[key])
            },
    {
        self.read_and_check_schema(resource_name, schema)
    }
}

/// A named archive type: the marker resource's name and the archive's
/// schema text, as a code generator would emit them.
pub trait ArchiveBuilder {
    /// The archive's name.
    spec fn name_spec() -> Seq<char>;

    /// The archive's schema text.
    spec fn schema_spec() -> Seq<char>;

    /// The archive's name.
    fn archive_name() -> (r: &'static str)
        ensures
            r@ == Self::name_spec(),
;

    /// The archive's schema text.
    fn archive_schema() -> (r: &'static str)
        ensures
            r@ == Self::schema_spec(),
;
}

/// Creates a new archive marker in the storage: an empty-payload
/// resource named `<name>.archive` carrying the archive's schema.
///
/// An existing marker with that name is exactly the `AlreadyExists`
/// outcome: an archive is never silently overwritten.
pub fn create_archive<T: ArchiveBuilder, St: ResourceStorage>(storage: &mut St) -> (r: Result<
    (),
    ResourceStorageError,
>)
    ensures
        forall|n: Seq<char>| final(storage).full_key(n) == old(storage).full_key(n),
        ({
            let key = old(storage).full_key(T::name_spec() + ".archive"@);
            let skey = old(storage).full_key(T::name_spec() + ".archive"@ + ".schema"@);
            &&& ((r matches Err(e) && e matches ResourceStorageError::AlreadyExists { .. }) <==> old(
                storage,
            ).model().resources.dom().contains(key))
            &&& (r matches Err(ResourceStorageError::AlreadyExists { resource_name: rn }) ==> rn@
                == T::name_spec() + ".archive"@ && final(storage).model() == old(storage).model())
            &&& r is Ok ==> {
                &&& final(storage).model().frozen == old(storage).model().frozen
                &&& final(storage).model().resources.dom() == old(
                    storage,
                ).model().resources.dom().insert(key).insert(skey)
                &&& key != skey
                &&& is_framed(final(storage).model().resources[key], Seq::<u8>::empty())
                &&& final(storage).model().resources[skey] == vstd::utf8::encode_utf8(
                    T::schema_spec(),
                )
                &&& forall|k: Seq<char>|
                    k != key && k != skey && old(storage).model().resources.dom().contains(k)
                        ==> final(storage).model().resources[k] == old(
                        storage,
                    ).model().resources[k]
            }
        }),
{
    let signature_name = String::from_str(T::archive_name()).concat(".archive");
    if storage.resource_exists(signature_name.as_str()) {
        return Err(
            ResourceStorageError::AlreadyExists { resource_name: signature_name },
        );
    }
    let empty: Vec<u8> = Vec::new();
    let r = storage.write(signature_name.as_str(), T::archive_schema(), empty.as_slice());
    match r {
        Ok(_) => Ok(()),
        Err(e) => match e {
            ResourceStorageError::AlreadyExists { resource_name: n } => Err(
                ResourceStorageError::Io { message: n },
            ),
            e => Err(e),
        },
    }
}

/// Writes a schema text to a sink verbatim, unframed.
pub fn write_schema<S: Stream>(schema: &str, stream: &mut S) -> (r: Result<
    (),
    ResourceStorageError,
>)
    ensures
        r is Ok ==> final(stream).content() == write_at(
            old(stream).content(),
            old(stream).pos(),
            schema.spec_bytes(),
        ) && final(stream).pos() == old(stream).pos() + schema.spec_bytes().len(),
{
    stream.write_all(schema.as_bytes())
}

} // verus!
// The items below extend the framing layer with the storage capability:
// an abstract hierarchical resource store, the schema check, and the
// archive marker.
