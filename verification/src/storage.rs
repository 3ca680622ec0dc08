//! The binary commit container: per-file headers, the packed and compressed
//! blob, and the commit record that wraps a blob with its metadata.
//!
//! Every wire format here is specified twice over: a spec-level byte layout
//! (`header_bytes`, `blob_payload`, `save_bytes`) and a spec-level parser
//! (`parse_header`, `parse_blob`, `parse_save`). The executable serializers
//! and deserializers are proved to match them, and round-trip lemmas tie the
//! two together.

use vstd::prelude::*;
use vstd::string::StrSliceExecFns;
use vstd::string::StringExecFns;
use crate::files::sha256_digest;
use crate::strutil::hex_of;
use crate::strutil::chars_to_string;
use vstd::utf8::{valid_utf8, decode_utf8, encode_utf8};
use vstd::utf8::{encode_utf8_valid_utf8, encode_utf8_decode_utf8, decode_utf8_encode_utf8};
use crate::bytes::{
    pow256, be_value, be_bytes, lemma_be_bytes_len, lemma_be_value_bound,
    lemma_be_value_of_be_bytes, lemma_pow256_16, lemma_pow256_monotone, spec_fixed,
    u128_to_be_bytes, u128_from_be_bytes, read, to_fixed_bytes,
};

verus! {

/// Width in bytes of the fixed hash field of a commit header.
pub const HASH_LENGTH: usize = 64;

/// Width in bytes of the fixed creator field of a commit header.
pub const CREATOR_LENGTH: usize = 32;

/// Width in bytes of a serialized length or offset field.
pub const USIZE_LEN: usize = 8;

/// Width in bytes of a serialized timestamp field.
pub const U128_LEN: usize = 16;

/// How a stored buffer can fail to deserialize.
#[derive(Clone, Copy, Debug, PartialEq, Eq, Structural)]
pub enum StoreError {
    /// The buffer ends before a declared field does.
    Truncated,
    /// A filename or memo field does not hold UTF-8.
    BadUtf8,
    /// A declared length or offset does not fit this machine's usize.
    TooLarge,
    /// The compressed stream could not be decoded.
    Corrupt,
    /// A builder invariant was broken: offsets or sizes disagree.
    Inconsistent,
}

/// The mathematical content of one file header.
pub ghost struct HeaderModel {
    pub last_modified: nat,
    pub created: nat,
    pub content_length: nat,
    pub filename_length: nat,
    pub filename: Seq<char>,
    pub content_location: nat,
}

impl HeaderModel {
    /// Field values fit their wire fields and the declared filename length is
    /// the filename's byte length.
    pub open spec fn wf(self) -> bool {
        &&& self.filename_length == encode_utf8(self.filename).len()
        &&& self.last_modified < pow256(16)
        &&& self.created < pow256(16)
        &&& self.content_length < pow256(8)
        &&& self.filename_length < pow256(8)
        &&& self.content_location < pow256(8)
        &&& 56 + self.filename_length <= usize::MAX
    }

    /// The serialized size of this header.
    pub open spec fn len(self) -> nat {
        56 + self.filename_length
    }
}

/// The wire layout of one file header: two 16-byte timestamps, the content
/// length, the filename length, the filename bytes, and the content offset.
pub open spec fn header_bytes(m: HeaderModel) -> Seq<u8> {
    be_bytes(m.last_modified, 16) + be_bytes(m.created, 16) + be_bytes(m.content_length, 8)
        + be_bytes(m.filename_length, 8) + encode_utf8(m.filename) + be_bytes(
        m.content_location,
        8,
    )
}

/// Reads one header from the front of `b`, if one is there.
pub open spec fn parse_header(b: Seq<u8>) -> Option<HeaderModel> {
    if b.len() < 56 {
        None
    } else {
        let fl = be_value(b.subrange(40, 48)) as int;
        if 56 + fl > b.len() {
            None
        } else {
            let name_bytes = b.subrange(48, 48 + fl);
            if !valid_utf8(name_bytes) {
                None
            } else {
                Some(
                    HeaderModel {
                        last_modified: be_value(b.subrange(0, 16)),
                        created: be_value(b.subrange(16, 32)),
                        content_length: be_value(b.subrange(32, 40)),
                        filename_length: fl as nat,
                        filename: decode_utf8(name_bytes),
                        content_location: be_value(b.subrange(48 + fl, 56 + fl)),
                    },
                )
            }
        }
    }
}

/// The error that reading a header from `b` reports, where it reports one.
pub open spec fn header_err(b: Seq<u8>) -> StoreError {
    if b.len() < 56 {
        StoreError::Truncated
    } else if 56 + be_value(b.subrange(40, 48)) > b.len() {
        StoreError::Truncated
    } else if !valid_utf8(b.subrange(48, 48 + be_value(b.subrange(40, 48)) as int)) {
        StoreError::BadUtf8
    } else {
        StoreError::TooLarge
    }
}

/// Whether every parsed field of `m` fits this machine's usize.
pub open spec fn header_fits(m: HeaderModel) -> bool {
    &&& m.content_length <= usize::MAX
    &&& m.content_location <= usize::MAX
}

/// Serializing a well-formed header and reading it back, with anything after
/// it, yields the header again.
pub proof fn lemma_parse_header_of_bytes(m: HeaderModel, rest: Seq<u8>)
    requires
        m.wf(),
    ensures
        header_bytes(m).len() == m.len(),
        parse_header(header_bytes(m) + rest) == Some(m),
{
    let hb = header_bytes(m);
    let b = hb + rest;
    lemma_be_bytes_len(m.last_modified, 16);
    lemma_be_bytes_len(m.created, 16);
    lemma_be_bytes_len(m.content_length, 8);
    lemma_be_bytes_len(m.filename_length, 8);
    lemma_be_bytes_len(m.content_location, 8);
    let fl = m.filename_length as int;
    assert(b.subrange(0, 16) =~= be_bytes(m.last_modified, 16));
    assert(b.subrange(16, 32) =~= be_bytes(m.created, 16));
    assert(b.subrange(32, 40) =~= be_bytes(m.content_length, 8));
    assert(b.subrange(40, 48) =~= be_bytes(m.filename_length, 8));
    assert(b.subrange(48, 48 + fl) =~= encode_utf8(m.filename));
    assert(b.subrange(48 + fl, 56 + fl) =~= be_bytes(m.content_location, 8));
    lemma_be_value_of_be_bytes(m.last_modified, 16);
    lemma_be_value_of_be_bytes(m.created, 16);
    lemma_be_value_of_be_bytes(m.content_length, 8);
    lemma_be_value_of_be_bytes(m.filename_length, 8);
    lemma_be_value_of_be_bytes(m.content_location, 8);
    encode_utf8_valid_utf8(m.filename);
    encode_utf8_decode_utf8(m.filename);
}

/// Metadata of one file packed into a blob, preceding its raw bytes.
#[derive(Debug)]
pub struct FileHeaders {
    pub last_modified: u128,
    pub created: u128,
    pub content_length: usize,
    pub filename_length: usize,
    pub filename: String,
    pub content_location: usize,
}

impl View for FileHeaders {
    type V = HeaderModel;

    open spec fn view(&self) -> HeaderModel {
        HeaderModel {
            last_modified: self.last_modified as nat,
            created: self.created as nat,
            content_length: self.content_length as nat,
            filename_length: self.filename_length as nat,
            filename: self.filename@,
            content_location: self.content_location as nat,
        }
    }
}

/// Relies on String::from_utf8: it succeeds exactly on valid UTF-8 and
/// decodes the bytes to the characters they encode.
#[verifier::external_body]
fn string_from_utf8(v: Vec<u8>) -> (r: Option<String>)
    ensures
        match r {
            Some(s) => valid_utf8(v@) && s@ == decode_utf8(v@),
            None => !valid_utf8(v@),
        },
{
    match String::from_utf8(v) {
        Ok(s) => Some(s),
        Err(_) => None,
    }
}

impl FileHeaders {
    /// Serializes this header into its wire layout.
    pub fn to_bytes(&self) -> (r: Vec<u8>)
        ensures
            r@ == header_bytes(self@),
    {
        let mut b = u128_to_be_bytes(self.last_modified, 16);
        let created = u128_to_be_bytes(self.created, 16);
        b.extend_from_slice(created.as_slice());
        let clen = u128_to_be_bytes(self.content_length as u128, 8);
        b.extend_from_slice(clen.as_slice());
        let flen = u128_to_be_bytes(self.filename_length as u128, 8);
        b.extend_from_slice(flen.as_slice());
        b.extend_from_slice(self.filename.as_str().as_bytes());
        let cloc = u128_to_be_bytes(self.content_location as u128, 8);
        b.extend_from_slice(cloc.as_slice());
        b
    }

    /// Reads one header from the front of `bytes`; the spec parser says
    /// exactly what comes back, and which error otherwise.
    pub fn from_bytes(bytes: &Vec<u8>) -> (r: Result<FileHeaders, StoreError>)
        ensures
            match r {
                Ok(h) => {
                    &&& parse_header(bytes@) == Some(h@)
                    &&& h@.wf()
                    &&& header_fits(h@)
                },
                Err(e) => {
                    &&& (parse_header(bytes@) is None || !header_fits(
                        parse_header(bytes@)->Some_0,
                    ))
                    &&& e == header_err(bytes@)
                },
            },
    {
        let blen = bytes.len();
        if blen < 56 {
            return Err(StoreError::Truncated);
        }
        let last_modified = u128_from_be_bytes(bytes, 0, 16);
        let created = u128_from_be_bytes(bytes, 16, 16);
        let content_length_v = u128_from_be_bytes(bytes, 32, 8);
        let filename_length_v = u128_from_be_bytes(bytes, 40, 8);
        if filename_length_v > ((blen - 56) as u128) {
            return Err(StoreError::Truncated);
        }
        let fl = filename_length_v as usize;
        let mut cursor: usize = 48;
        let name_bytes = read(bytes, &mut cursor, fl);
        let filename = match string_from_utf8(name_bytes) {
            Some(s) => s,
            None => {
                return Err(StoreError::BadUtf8);
            },
        };
        let content_location_v = u128_from_be_bytes(bytes, 48 + fl, 8);
        if content_length_v > (usize::MAX as u128) || content_location_v > (usize::MAX as u128) {
            return Err(StoreError::TooLarge);
        }
        proof {
            lemma_be_value_bound(bytes@.subrange(0, 16));
            lemma_be_value_bound(bytes@.subrange(16, 32));
            lemma_be_value_bound(bytes@.subrange(32, 40));
            lemma_be_value_bound(bytes@.subrange(40, 48));
            lemma_be_value_bound(bytes@.subrange(48 + fl, 56 + fl));
            decode_utf8_encode_utf8(bytes@.subrange(48, 48 + fl));
        }
        Ok(
            FileHeaders {
                last_modified,
                created,
                content_length: content_length_v as usize,
                filename_length: fl,
                filename,
                content_location: content_location_v as usize,
            },
        )
    }

    /// The number of bytes this header occupies when serialized.
    pub fn len(&self) -> (r: usize)
        requires
            self.filename_length <= usize::MAX - 56,
        ensures
            r == self@.len(),
    {
        U128_LEN + U128_LEN + USIZE_LEN + USIZE_LEN + self.filename_length + USIZE_LEN
    }
}

/// The mathematical content of a packed blob: an ordered list of file
/// headers and the shared data buffer their offsets point into.
pub ghost struct BlobModel {
    pub headers: Seq<HeaderModel>,
    pub data: Seq<u8>,
}

pub open spec fn headers_wf(hs: Seq<HeaderModel>) -> bool {
    forall|i: int| 0 <= i < hs.len() ==> (#[trigger] hs[i]).wf()
}

/// Total serialized size of a list of headers.
pub open spec fn headers_size(hs: Seq<HeaderModel>) -> nat
    decreases hs.len(),
{
    if hs.len() == 0 {
        0
    } else {
        hs.first().len() + headers_size(hs.drop_first())
    }
}

/// The concatenated wire form of a list of headers.
pub open spec fn headers_bytes(hs: Seq<HeaderModel>) -> Seq<u8>
    decreases hs.len(),
{
    if hs.len() == 0 {
        Seq::empty()
    } else {
        header_bytes(hs.first()) + headers_bytes(hs.drop_first())
    }
}

pub proof fn lemma_headers_size_push(hs: Seq<HeaderModel>, h: HeaderModel)
    ensures
        headers_size(hs.push(h)) == headers_size(hs) + h.len(),
    decreases hs.len(),
{
    if hs.len() == 0 {
        assert(hs.push(h).first() == h);
        assert(hs.push(h).drop_first() =~= Seq::<HeaderModel>::empty());
        assert(headers_size(Seq::<HeaderModel>::empty()) == 0);
        assert(headers_size(hs.push(h)) == h.len() + headers_size(hs.push(h).drop_first()));
    } else {
        assert(hs.push(h).first() == hs.first());
        assert(hs.push(h).drop_first() =~= hs.drop_first().push(h));
        lemma_headers_size_push(hs.drop_first(), h);
        assert(headers_size(hs.push(h)) == hs.first().len() + headers_size(
            hs.push(h).drop_first(),
        ));
        assert(headers_size(hs) == hs.first().len() + headers_size(hs.drop_first()));
    }
}

pub proof fn lemma_headers_bytes_push(hs: Seq<HeaderModel>, h: HeaderModel)
    ensures
        headers_bytes(hs.push(h)) == headers_bytes(hs) + header_bytes(h),
    decreases hs.len(),
{
    if hs.len() == 0 {
        assert(hs.push(h).first() == h);
        assert(hs.push(h).drop_first() =~= Seq::<HeaderModel>::empty());
        assert(headers_bytes(hs.push(h).drop_first()) == Seq::<u8>::empty());
        assert(headers_bytes(hs.push(h)) =~= headers_bytes(hs) + header_bytes(h));
    } else {
        assert(hs.push(h).first() == hs.first());
        assert(hs.push(h).drop_first() =~= hs.drop_first().push(h));
        lemma_headers_bytes_push(hs.drop_first(), h);
        assert(headers_bytes(hs.push(h)) =~= headers_bytes(hs) + header_bytes(h));
    }
}

/// The size of a prefix of headers never exceeds the size of them all.
pub proof fn lemma_headers_size_prefix(hs: Seq<HeaderModel>, i: int)
    requires
        0 <= i <= hs.len(),
    ensures
        headers_size(hs.take(i)) <= headers_size(hs),
    decreases hs.len() - i,
{
    if i == hs.len() {
        assert(hs.take(i) =~= hs);
    } else {
        assert(hs.take(i + 1) =~= hs.take(i).push(hs[i]));
        lemma_headers_size_push(hs.take(i), hs[i]);
        lemma_headers_size_prefix(hs, i + 1);
    }
}

/// For well-formed headers, the wire form is exactly `headers_size` long.
pub proof fn lemma_headers_bytes_len(hs: Seq<HeaderModel>)
    requires
        headers_wf(hs),
    ensures
        headers_bytes(hs).len() == headers_size(hs),
    decreases hs.len(),
{
    if hs.len() > 0 {
        lemma_be_bytes_len(hs.first().last_modified, 16);
        lemma_be_bytes_len(hs.first().created, 16);
        lemma_be_bytes_len(hs.first().content_length, 8);
        lemma_be_bytes_len(hs.first().filename_length, 8);
        lemma_be_bytes_len(hs.first().content_location, 8);
        assert(headers_wf(hs.drop_first()));
        lemma_headers_bytes_len(hs.drop_first());
    }
}

impl BlobModel {
    /// Headers are well formed and the whole payload fits in one buffer.
    pub open spec fn wf(self) -> bool {
        &&& headers_wf(self.headers)
        &&& 8 + headers_size(self.headers) + self.data.len() <= usize::MAX
    }

    /// Every header's content range lies inside the data buffer.
    pub open spec fn locations_ok(self) -> bool {
        forall|i: int|
            0 <= i < self.headers.len() ==> (#[trigger] self.headers[i]).content_location
                + self.headers[i].content_length <= self.data.len()
    }
}

/// The uncompressed wire layout of a blob: an 8-byte total header size, the
/// headers, then the raw data.
pub open spec fn blob_payload(m: BlobModel) -> Seq<u8> {
    be_bytes(headers_size(m.headers), 8) + headers_bytes(m.headers) + m.data
}

/// Reads headers from `b` starting at `pos` until exactly `end` is reached.
pub open spec fn parse_headers(b: Seq<u8>, pos: int, end: int) -> Option<Seq<HeaderModel>>
    decreases end - pos,
{
    if pos == end {
        Some(Seq::empty())
    } else if pos > end {
        None
    } else {
        match parse_header(b.subrange(pos, b.len() as int)) {
            None => None,
            Some(h) => if pos + h.len() > end {
                None
            } else {
                match parse_headers(b, pos + h.len(), end) {
                    None => None,
                    Some(t) => Some(seq![h] + t),
                }
            },
        }
    }
}

/// Reads a whole uncompressed blob payload.
pub open spec fn parse_blob(b: Seq<u8>) -> Option<BlobModel> {
    if b.len() < 8 {
        None
    } else {
        let hsize = be_value(b.subrange(0, 8)) as int;
        if 8 + hsize > b.len() {
            None
        } else {
            match parse_headers(b, 8, 8 + hsize) {
                None => None,
                Some(hs) => Some(
                    BlobModel { headers: hs, data: b.subrange(8 + hsize, b.len() as int) },
                ),
            }
        }
    }
}

/// Every parsed field of every header fits this machine's usize.
pub open spec fn headers_fit(hs: Seq<HeaderModel>) -> bool {
    forall|i: int| 0 <= i < hs.len() ==> header_fits(#[trigger] hs[i])
}

/// Every parsed field of every header fits this machine's usize.
pub open spec fn blob_fits(m: BlobModel) -> bool {
    headers_fit(m.headers)
}

/// Reading back a serialized header list, laid out at `pos` in a larger
/// buffer, yields the same list.
#[verifier::rlimit(60)]
#[verifier::spinoff_prover]
pub proof fn lemma_parse_headers_of_bytes(hs: Seq<HeaderModel>, b: Seq<u8>, pos: int)
    requires
        headers_wf(hs),
        0 <= pos,
        pos + headers_size(hs) <= b.len(),
        b.subrange(pos, pos + headers_size(hs)) == headers_bytes(hs),
    ensures
        parse_headers(b, pos, pos + headers_size(hs)) == Some(hs),
    decreases hs.len(),
{
    lemma_headers_bytes_len(hs);
    if hs.len() == 0 {
        assert(parse_headers(b, pos, pos) == Some(Seq::<HeaderModel>::empty()));
        assert(Seq::<HeaderModel>::empty() =~= hs);
    } else {
        let h = hs.first();
        let t = hs.drop_first();
        assert(headers_wf(t));
        lemma_headers_bytes_len(t);
        let tail = b.subrange(pos, b.len() as int);
        lemma_parse_header_of_bytes(h, headers_bytes(t) + b.subrange(
            pos + headers_size(hs),
            b.len() as int,
        ));
        assert(tail =~= header_bytes(h) + (headers_bytes(t) + b.subrange(
            pos + headers_size(hs),
            b.len() as int,
        )));
        assert(parse_header(tail) == Some(h));
        assert(header_bytes(h).len() == h.len());
        assert(headers_bytes(hs) == header_bytes(h) + headers_bytes(t));
        assert forall|j: int| 0 <= j < headers_size(t) implies b[pos + h.len() + j]
            == headers_bytes(t)[j] by {
            assert((header_bytes(h) + headers_bytes(t))[h.len() + j] == headers_bytes(t)[j]);
            assert(b.subrange(pos, pos + headers_size(hs))[h.len() + j] == b[pos + h.len() + j]);
        }
        assert(b.subrange(pos + h.len(), pos + h.len() + headers_size(t)) =~= headers_bytes(t));
        lemma_parse_headers_of_bytes(t, b, pos + h.len() as int);
        assert(parse_headers(b, pos + h.len(), pos + headers_size(hs)) == Some(t));
        assert(seq![h] + t =~= hs);
    }
}

/// Serializing a well-formed blob and parsing the payload back yields the
/// same blob.
pub proof fn lemma_parse_blob_of_payload(m: BlobModel)
    requires
        m.wf(),
    ensures
        parse_blob(blob_payload(m)) == Some(m),
{
    let b = blob_payload(m);
    let hs = headers_size(m.headers) as int;
    lemma_be_bytes_len(hs as nat, 8);
    lemma_headers_bytes_len(m.headers);
    lemma_pow256_16();
    assert(usize::MAX < pow256(8));
    lemma_be_value_of_be_bytes(hs as nat, 8);
    assert(b.subrange(0, 8) =~= be_bytes(hs as nat, 8));
    assert(b.subrange(8, 8 + hs) =~= headers_bytes(m.headers));
    lemma_parse_headers_of_bytes(m.headers, b, 8);
    assert(b.subrange(8 + hs, b.len() as int) =~= m.data);
}

/// A name for what zstd compression returns: `encode_all` at a fixed level
/// is a function of the input bytes alone.
pub uninterp spec fn zstd_encoding(data: Seq<u8>) -> Seq<u8>;

/// A name for what zstd decompression returns: `decode_all` is a function
/// of the input bytes alone, succeeding with the decompressed bytes or
/// failing, consistently for a given input.
pub uninterp spec fn zstd_decoding(data: Seq<u8>) -> Option<Seq<u8>>;

/// Relies on zstd::stream::encode_all at level 3: the compressed frame is a
/// function of the input bytes alone, and -- zstd being lossless -- decodes
/// back to exactly the input. Reading from an in-memory slice into a
/// vector, the call cannot hit an I/O error; allocation failure aside, it
/// returns the frame.
#[verifier::external_body]
fn zstd_compress(data: &Vec<u8>) -> (r: Vec<u8>)
    ensures
        r@ == zstd_encoding(data@),
        zstd_decoding(r@) == Some(data@),
{
    zstd::stream::encode_all(data.as_slice(), 3).expect("compression from a slice cannot fail")
}

/// Relies on zstd::stream::decode_all: it succeeds with the decompressed
/// bytes exactly when the input decodes at all, and which way it goes is a
/// function of the input bytes alone.
#[verifier::external_body]
fn zstd_decompress(data: &Vec<u8>) -> (r: Result<Vec<u8>, StoreError>)
    ensures
        r matches Ok(o) ==> zstd_decoding(data@) == Some(o@),
        r matches Err(e) ==> e == StoreError::Corrupt && zstd_decoding(data@) is None,
{
    match zstd::stream::decode_all(data.as_slice()) {
        Ok(o) => Ok(o),
        Err(_) => Err(StoreError::Corrupt),
    }
}

/// A packed set of files: per-file headers and one shared data buffer.
#[derive(Debug)]
pub struct Blob {
    pub headers: Vec<FileHeaders>,
    pub data: Vec<u8>,
}

pub open spec fn models_of(hs: Seq<FileHeaders>) -> Seq<HeaderModel> {
    Seq::new(hs.len(), |i: int| hs[i]@)
}

impl View for Blob {
    type V = BlobModel;

    open spec fn view(&self) -> BlobModel {
        BlobModel { headers: models_of(self.headers@), data: self.data@ }
    }
}

/// What a correct deserializer must return for the uncompressed payload `d`.
pub open spec fn blob_outcome_ok(d: Seq<u8>, r: Result<Blob, StoreError>) -> bool {
    match parse_blob(d) {
        Some(m) => if blob_fits(m) {
            r matches Ok(b) && b@ == m
        } else {
            r is Err
        },
        None => r is Err,
    }
}

impl Blob {
    /// The summed serialized size of the headers.
    fn headers_total(&self) -> (r: usize)
        requires
            self@.wf(),
        ensures
            r == headers_size(self@.headers),
    {
        let ghost all = self@.headers;
        let mut total: usize = 0;
        let mut i: usize = 0;
        proof {
            assert(all.take(0) =~= Seq::<HeaderModel>::empty());
        }
        while i < self.headers.len()
            invariant
                self@.wf(),
                i <= self.headers@.len(),
                all == self@.headers,
                total == headers_size(all.take(i as int)),
            decreases self.headers@.len() - i,
        {
            proof {
                lemma_headers_size_push(all.take(i as int), all[i as int]);
                assert(all.take(i + 1) =~= all.take(i as int).push(all[i as int]));
                lemma_headers_size_prefix(all, i + 1);
                assert(all[i as int].wf());
            }
            total = total + self.headers[i].len();
            i = i + 1;
        }
        proof {
            assert(all.take(self.headers@.len() as int) =~= all);
        }
        total
    }

    /// Serializes and compresses the whole blob: the result is exactly the
    /// zstd encoding of the blob's payload, built whole before any caller
    /// writes it anywhere.
    pub fn to_bytes(&self) -> (r: Vec<u8>)
        requires
            self@.wf(),
        ensures
            r@ == zstd_encoding(blob_payload(self@)),
            zstd_decoding(r@) == Some(blob_payload(self@)),
    {
        let ghost all = self@.headers;
        let total = self.headers_total();
        let mut payload = u128_to_be_bytes(total as u128, 8);
        let mut i: usize = 0;
        proof {
            assert(all.take(0) =~= Seq::<HeaderModel>::empty());
            assert(payload@ =~= be_bytes(headers_size(all), 8) + headers_bytes(all.take(0)));
        }
        while i < self.headers.len()
            invariant
                self@.wf(),
                i <= self.headers@.len(),
                all == self@.headers,
                payload@ == be_bytes(headers_size(all), 8) + headers_bytes(all.take(i as int)),
            decreases self.headers@.len() - i,
        {
            let hb = self.headers[i].to_bytes();
            payload.extend_from_slice(hb.as_slice());
            proof {
                lemma_headers_bytes_push(all.take(i as int), all[i as int]);
                assert(all.take(i + 1) =~= all.take(i as int).push(all[i as int]));
                assert(payload@ =~= be_bytes(headers_size(all), 8) + headers_bytes(
                    all.take(i + 1),
                ));
            }
            i = i + 1;
        }
        payload.extend_from_slice(self.data.as_slice());
        proof {
            assert(all.take(self.headers@.len() as int) =~= all);
            assert(payload@ =~= blob_payload(self@));
        }
        zstd_compress(&payload)
    }

    /// Parses the header region of an uncompressed payload.
    pub fn headers_from_bytes(bytes: &Vec<u8>) -> (r: Result<Vec<FileHeaders>, StoreError>)
        ensures
            match r {
                Ok(hs) => {
                    &&& bytes@.len() >= 8
                    &&& 8 + be_value(bytes@.subrange(0, 8)) as int <= bytes@.len()
                    &&& parse_headers(
                        bytes@,
                        8,
                        8 + be_value(bytes@.subrange(0, 8)) as int,
                    ) == Some(models_of(hs@))
                    &&& headers_wf(models_of(hs@))
                    &&& headers_fit(models_of(hs@))
                },
                Err(_) => !({
                    &&& bytes@.len() >= 8
                    &&& 8 + be_value(bytes@.subrange(0, 8)) as int <= bytes@.len()
                    &&& parse_headers(bytes@, 8, 8 + be_value(bytes@.subrange(0, 8)) as int) matches Some(
                        hs,
                    ) && headers_fit(hs)
                }),
            },
    {
        let blen = bytes.len();
        if blen < 8 {
            return Err(StoreError::Truncated);
        }
        let hsize_v = u128_from_be_bytes(bytes, 0, 8);
        if hsize_v > ((blen - 8) as u128) {
            return Err(StoreError::Truncated);
        }
        let end: usize = 8 + (hsize_v as usize);
        let mut cursor: usize = 8;
        let mut headers: Vec<FileHeaders> = Vec::new();
        while cursor < end
            invariant
                8 <= cursor <= end <= blen,
                blen == bytes@.len(),
                end == 8 + be_value(bytes@.subrange(0, 8)) as int,
                headers_wf(models_of(headers@)),
                headers_fit(models_of(headers@)),
                forall|t: Seq<HeaderModel>|
                    parse_headers(bytes@, cursor as int, end as int) == Some(t) ==> parse_headers(
                        bytes@,
                        8,
                        end as int,
                    ) == Some(models_of(headers@) + t),
                parse_headers(bytes@, cursor as int, end as int) is None ==> parse_headers(
                    bytes@,
                    8,
                    end as int,
                ) is None,
            decreases end - cursor,
        {
            let mut c2: usize = cursor;
            let tail = read(bytes, &mut c2, blen - cursor);
            let ghost old_headers = headers@;
            match FileHeaders::from_bytes(&tail) {
                Err(e) => {
                    proof {
                        assert(tail@ =~= bytes@.subrange(cursor as int, bytes@.len() as int));
                        let sub = bytes@.subrange(cursor as int, bytes@.len() as int);
                        if parse_header(sub) is Some {
                            let h0 = parse_header(sub)->Some_0;
                            assert(!header_fits(h0));
                            match parse_headers(bytes@, cursor as int, end as int) {
                                Some(t) => {
                                    assert(t == seq![h0] + parse_headers(
                                        bytes@,
                                        cursor + h0.len(),
                                        end as int,
                                    )->Some_0);
                                    assert(t[0] == h0);
                                    let full = models_of(headers@) + t;
                                    assert(full[models_of(headers@).len() as int] == h0);
                                    assert(!headers_fit(full));
                                },
                                None => {},
                            }
                        }
                    }
                    return Err(e);
                },
                Ok(h) => {
                    proof {
                        assert(tail@ =~= bytes@.subrange(cursor as int, bytes@.len() as int));
                    }
                    let hl = h.len();
                    if hl > end - cursor {
                        proof {
                            assert(parse_headers(bytes@, cursor as int, end as int) is None);
                        }
                        return Err(StoreError::Truncated);
                    }
                    headers.push(h);
                    proof {
                        assert(models_of(headers@) =~= models_of(old_headers).push(h@));
                        assert(forall|t: Seq<HeaderModel>|
                            models_of(old_headers) + (seq![h@] + t) =~= models_of(headers@) + t);
                    }
                    cursor = cursor + hl;
                },
            }
        }
        proof {
            assert(parse_headers(bytes@, cursor as int, end as int) == Some(
                Seq::<HeaderModel>::empty(),
            ));
            assert(models_of(headers@) + Seq::<HeaderModel>::empty() =~= models_of(headers@));
        }
        Ok(headers)
    }

    /// Decompresses and parses a stored blob. For any payload `d` whose zstd
    /// encoding this buffer is, the result is exactly what the spec parser
    /// says of `d`.
    pub fn from_bytes(bytes: &Vec<u8>) -> (r: Result<Blob, StoreError>)
        ensures
            match zstd_decoding(bytes@) {
                Some(d) => blob_outcome_ok(d, r),
                None => r matches Err(e) && e == StoreError::Corrupt,
            },
            r matches Ok(b) ==> b@.wf(),
    {
        let payload = match zstd_decompress(bytes) {
            Ok(p) => p,
            Err(e) => {
                return Err(e);
            },
        };
        let headers = match Blob::headers_from_bytes(&payload) {
            Ok(hs) => hs,
            Err(e) => {
                return Err(e);
            },
        };
        let hsize_v = u128_from_be_bytes(&payload, 0, 8);
        let mut cursor: usize = 8 + (hsize_v as usize);
        let data = read(&payload, &mut cursor, payload.len() - (8 + (hsize_v as usize)));
        let blob = Blob { headers, data };
        proof {
            let d = payload@;
            let hs = be_value(d.subrange(0, 8)) as int;
            lemma_be_value_bound(d.subrange(0, 8));
            let m = parse_blob(d)->Some_0;
            assert(blob@.headers == m.headers);
            assert(blob@.data =~= m.data);
            assert(d.len() <= usize::MAX);
            lemma_headers_bytes_len_of_parse(d, 8, 8 + hs);
        }
        Ok(blob)
    }

    /// Checks that every header's content range lies inside the data
    /// buffer, as a caller of `get_file` must know before asking.
    pub fn check_locations(&self) -> (r: bool)
        ensures
            r == self@.locations_ok(),
    {
        let mut i: usize = 0;
        let dlen = self.data.len();
        while i < self.headers.len()
            invariant
                i <= self.headers@.len(),
                dlen == self@.data.len(),
                forall|j: int|
                    0 <= j < i ==> (#[trigger] self@.headers[j]).content_location
                        + self@.headers[j].content_length <= dlen,
            decreases self.headers@.len() - i,
        {
            proof {
                assert(self@.headers[i as int] == self.headers@[i as int]@);
            }
            let h = &self.headers[i];
            if h.content_length > dlen || h.content_location > dlen - h.content_length {
                proof {
                    assert(self@.headers[i as int].content_location
                        + self@.headers[i as int].content_length > dlen);
                }
                return false;
            }
            i = i + 1;
        }
        true
    }

    /// Looks a file up by name and returns a copy of its exact byte range.
    pub fn get_file(&self, filename: &str) -> (r: Option<Vec<u8>>)
        requires
            self@.locations_ok(),
        ensures
            match find_file(self@.headers, self@.data, filename@) {
                Some(s) => r matches Some(v) && v@ == s,
                None => r is None,
            },
    {
        let ghost hs = self@.headers;
        let mut i: usize = 0;
        proof {
            assert(hs.skip(0) =~= hs);
        }
        while i < self.headers.len()
            invariant
                self@.locations_ok(),
                hs == self@.headers,
                i <= self.headers@.len(),
                find_file(hs, self@.data, filename@) == find_file(
                    hs.skip(i as int),
                    self@.data,
                    filename@,
                ),
            decreases self.headers@.len() - i,
        {
            proof {
                assert(hs.skip(i as int).drop_first() =~= hs.skip(i + 1));
                assert(hs.skip(i as int).first() == hs[i as int]);
            }
            if crate::strutil::str_eq(self.headers[i].filename.as_str(), filename) {
                let mut cursor: usize = self.headers[i].content_location;
                let data = read(&self.data, &mut cursor, self.headers[i].content_length);
                return Some(data);
            }
            i = i + 1;
        }
        proof {
            assert(hs.skip(self.headers@.len() as int) =~= Seq::<HeaderModel>::empty());
        }
        None
    }
}

/// The first header whose filename matches, with its byte range, scanning in
/// order.
pub open spec fn find_file(hs: Seq<HeaderModel>, data: Seq<u8>, name: Seq<char>) -> Option<
    Seq<u8>,
>
    decreases hs.len(),
{
    if hs.len() == 0 {
        None
    } else if hs.first().filename == name {
        Some(
            data.subrange(
                hs.first().content_location as int,
                hs.first().content_location + hs.first().content_length as int,
            ),
        )
    } else {
        find_file(hs.drop_first(), data, name)
    }
}

/// A successfully parsed header region occupies exactly `end - pos` bytes,
/// so the data region of a parsed blob starts right after it.
pub proof fn lemma_headers_bytes_len_of_parse(b: Seq<u8>, pos: int, end: int)
    requires
        b.len() <= usize::MAX,
        0 <= pos <= end <= b.len(),
        parse_headers(b, pos, end) is Some,
    ensures
        headers_size(parse_headers(b, pos, end)->Some_0) == end - pos,
        headers_wf(parse_headers(b, pos, end)->Some_0),
    decreases end - pos,
{
    if pos == end {
    } else {
        let h = parse_header(b.subrange(pos, b.len() as int))->Some_0;
        lemma_parse_header_wf(b.subrange(pos, b.len() as int));
        lemma_headers_bytes_len_of_parse(b, pos + h.len(), end);
        let t = parse_headers(b, pos + h.len(), end)->Some_0;
        assert((seq![h] + t).first() == h);
        assert((seq![h] + t).drop_first() =~= t);
    }
}

/// Whatever `parse_header` returns is well formed.
pub proof fn lemma_parse_header_wf(b: Seq<u8>)
    requires
        b.len() <= usize::MAX,
        parse_header(b) is Some,
    ensures
        parse_header(b)->Some_0.wf(),
{
    let fl = be_value(b.subrange(40, 48)) as int;
    let name_bytes = b.subrange(48, 48 + fl);
    decode_utf8_encode_utf8(name_bytes);
    lemma_be_value_bound(b.subrange(0, 16));
    lemma_be_value_bound(b.subrange(16, 32));
    lemma_be_value_bound(b.subrange(32, 40));
    lemma_be_value_bound(b.subrange(40, 48));
    lemma_be_value_bound(b.subrange(48 + fl, 56 + fl));
}

/// The mathematical content of one file handed to the packer: its name, its
/// raw bytes, and its two timestamps in microseconds since the epoch.
pub ghost struct BlobFileModel {
    pub filename: Seq<char>,
    pub content: Seq<u8>,
    pub last_modified: nat,
    pub created: nat,
}

/// One file handed to the packer by the caller, who read it and its
/// metadata; the core itself never touches the filesystem.
#[derive(Debug)]
pub struct BlobFile {
    pub filename: String,
    pub content: Vec<u8>,
    pub last_modified: u128,
    pub created: u128,
}

impl View for BlobFile {
    type V = BlobFileModel;

    open spec fn view(&self) -> BlobFileModel {
        BlobFileModel {
            filename: self.filename@,
            content: self.content@,
            last_modified: self.last_modified as nat,
            created: self.created as nat,
        }
    }
}

pub open spec fn file_models_of(fs: Seq<BlobFile>) -> Seq<BlobFileModel> {
    Seq::new(fs.len(), |i: int| fs[i]@)
}

/// Timestamps fit their 16-byte wire fields; true of every file built from
/// machine integers.
pub open spec fn files_wf(fs: Seq<BlobFileModel>) -> bool {
    forall|i: int|
        0 <= i < fs.len() ==> (#[trigger] fs[i]).last_modified < pow256(16) && fs[i].created
            < pow256(16)
}

/// Where file i's bytes start in the packed data buffer: the sum of the
/// content lengths before it. Offsets are relative to the start of `data`.
pub open spec fn data_offset(fs: Seq<BlobFileModel>, i: int) -> nat
    decreases i,
{
    if i <= 0 {
        0
    } else {
        data_offset(fs, i - 1) + fs[i - 1].content.len()
    }
}

/// The header that packing builds for file i.
pub open spec fn pack_header(fs: Seq<BlobFileModel>, i: int) -> HeaderModel {
    HeaderModel {
        last_modified: fs[i].last_modified,
        created: fs[i].created,
        content_length: fs[i].content.len(),
        filename_length: encode_utf8(fs[i].filename).len(),
        filename: fs[i].filename,
        content_location: data_offset(fs, i),
    }
}

pub open spec fn pack_headers(fs: Seq<BlobFileModel>) -> Seq<HeaderModel> {
    Seq::new(fs.len(), |i: int| pack_header(fs, i))
}

/// All file contents concatenated in order.
pub open spec fn pack_data(fs: Seq<BlobFileModel>) -> Seq<u8>
    decreases fs.len(),
{
    if fs.len() == 0 {
        Seq::empty()
    } else {
        pack_data(fs.drop_last()) + fs.last().content
    }
}

/// What packing a list of files must produce.
pub open spec fn pack_model(fs: Seq<BlobFileModel>) -> BlobModel {
    BlobModel { headers: pack_headers(fs), data: pack_data(fs) }
}

/// The whole packed payload fits in one in-memory buffer.
pub open spec fn pack_fits(fs: Seq<BlobFileModel>) -> bool {
    8 + headers_size(pack_headers(fs)) + pack_data(fs).len() <= usize::MAX
}

pub proof fn lemma_pack_data_len(fs: Seq<BlobFileModel>, i: int)
    requires
        0 <= i <= fs.len(),
    ensures
        pack_data(fs.take(i)).len() == data_offset(fs, i),
    decreases i,
{
    if i > 0 {
        assert(fs.take(i).drop_last() =~= fs.take(i - 1));
        assert(fs.take(i).last() == fs[i - 1]);
        lemma_pack_data_len(fs, i - 1);
    } else {
        assert(fs.take(0) =~= Seq::<BlobFileModel>::empty());
    }
}

pub proof fn lemma_data_offset_monotone(fs: Seq<BlobFileModel>, i: int, j: int)
    requires
        0 <= i <= j,
    ensures
        data_offset(fs, i) <= data_offset(fs, j),
    decreases j - i,
{
    if i < j {
        lemma_data_offset_monotone(fs, i, j - 1);
    }
}

/// Each single header's size is at most the size of the whole list.
pub proof fn lemma_header_le_size(hs: Seq<HeaderModel>, i: int)
    requires
        0 <= i < hs.len(),
    ensures
        hs[i].len() <= headers_size(hs),
    decreases hs.len(),
{
    if i == 0 {
    } else {
        assert(hs.drop_first()[i - 1] == hs[i]);
        lemma_header_le_size(hs.drop_first(), i - 1);
    }
}

/// Packs a list of files into one blob: a header per file, and all contents
/// concatenated, each file's offset the running total of those before it.
/// When the total size fits in memory the result is well formed and every
/// content range lies inside the data buffer.
pub fn blobify(files: Vec<BlobFile>) -> (r: Blob)
    ensures
        r@ == pack_model(file_models_of(files@)),
        r@.locations_ok(),
        blob_fits(r@),
        pack_fits(file_models_of(files@)) ==> r@.wf(),
{
    let ghost fs = file_models_of(files@);
    let mut headers: Vec<FileHeaders> = Vec::new();
    let mut data: Vec<u8> = Vec::new();
    let mut i: usize = 0;
    proof {
        assert(fs.take(0) =~= Seq::<BlobFileModel>::empty());
    }
    while i < files.len()
        invariant
            fs == file_models_of(files@),
            i <= files@.len(),
            headers@.len() == i,
            forall|j: int| 0 <= j < i ==> (#[trigger] headers@[j])@ == pack_header(fs, j),
            data@ == pack_data(fs.take(i as int)),
            data@.len() == data_offset(fs, i as int),
        decreases files@.len() - i,
    {
        proof {
            lemma_pack_data_len(fs, i as int);
            lemma_pack_data_len(fs, i + 1);
            assert(fs.take(i + 1).drop_last() =~= fs.take(i as int));
            assert(fs.take(i + 1).last() == fs[i as int]);
        }
        let fname_len = files[i].filename.as_str().as_bytes().len();
        let h = FileHeaders {
            last_modified: files[i].last_modified,
            created: files[i].created,
            content_length: files[i].content.len(),
            filename_length: fname_len,
            filename: files[i].filename.clone(),
            content_location: data.len(),
        };
        headers.push(h);
        data.extend_from_slice(files[i].content.as_slice());
        i = i + 1;
    }
    let r = Blob { headers, data };
    proof {
        assert(fs.take(files@.len() as int) =~= fs);
        assert(models_of(r.headers@) =~= pack_headers(fs));
        assert(r@.headers == pack_headers(fs));
        assert(r@.data == pack_data(fs));
        assert forall|j: int| 0 <= j < r@.headers.len() implies (#[trigger] r@.headers[j])
            .content_location + r@.headers[j].content_length <= r@.data.len() by {
            lemma_pack_data_len(fs, fs.len() as int);
            lemma_data_offset_monotone(fs, j + 1, fs.len() as int);
        }
        if pack_fits(fs) {
            assert forall|j: int| 0 <= j < r@.headers.len() implies (#[trigger] r@.headers[j]).wf()
                by {
                lemma_header_le_size(pack_headers(fs), j);
                lemma_pack_data_len(fs, fs.len() as int);
                lemma_data_offset_monotone(fs, j + 1, fs.len() as int);
                lemma_pow256_16();
            }
        }
    }
    r
}

/// Checks that packing `files` would fit in one in-memory buffer.
pub fn pack_fits_check(files: &Vec<BlobFile>) -> (r: bool)
    ensures
        r == pack_fits(file_models_of(files@)),
{
    let ghost fs = file_models_of(files@);
    let ghost ph = pack_headers(fs);
    let mut total: u128 = 8;
    let mut i: usize = 0;
    proof {
        assert(ph.take(0) =~= Seq::<HeaderModel>::empty());
    }
    while i < files.len()
        invariant
            fs == file_models_of(files@),
            ph == pack_headers(fs),
            i <= files@.len(),
            total == 8 + headers_size(ph.take(i as int)) + data_offset(fs, i as int),
            total <= usize::MAX,
        decreases files@.len() - i,
    {
        proof {
            lemma_headers_size_push(ph.take(i as int), ph[i as int]);
            assert(ph.take(i + 1) =~= ph.take(i as int).push(ph[i as int]));
            assert(ph[i as int] == pack_header(fs, i as int));
            assert(fs[i as int] == files@[i as int]@);
            lemma_pow256_16();
            assert(usize::MAX < pow256(8));
        }
        let fname_len = files[i].filename.as_str().as_bytes().len();
        let add: u128 = 56u128 + (fname_len as u128) + (files[i].content.len() as u128);
        total = total + add;
        if total > (usize::MAX as u128) {
            proof {
                lemma_headers_size_prefix(ph, i + 1);
                assert(fs.take(fs.len() as int) =~= fs);
                lemma_pack_data_len(fs, fs.len() as int);
                lemma_data_offset_monotone(fs, i + 1, fs.len() as int);
            }
            return false;
        }
        i = i + 1;
    }
    proof {
        assert(ph.take(files@.len() as int) =~= ph);
        assert(fs.take(fs.len() as int) =~= fs);
        lemma_pack_data_len(fs, fs.len() as int);
    }
    true
}

/// The mathematical content of a commit header. The hash and creator fields
/// are fixed-capacity (truncate or zero-pad, lossy by design); the memo is
/// length-prefixed and never truncated.
pub ghost struct SaveModel {
    pub hash: Seq<u8>,
    pub memo: Seq<char>,
    pub memo_size: nat,
    pub created_date: nat,
    pub creator: Seq<u8>,
}

impl SaveModel {
    pub open spec fn wf(self) -> bool {
        &&& self.hash.len() == 64
        &&& self.creator.len() == 32
        &&& self.memo_size == encode_utf8(self.memo).len()
        &&& self.memo_size < pow256(8)
        &&& self.created_date < pow256(16)
        &&& 120 + self.memo_size <= usize::MAX
    }

    /// The serialized size of this commit header.
    pub open spec fn len(self) -> nat {
        120 + self.memo_size
    }
}

/// The wire layout of a commit header: 64-byte hash, 8-byte memo size, the
/// memo bytes, a 16-byte timestamp, and a 32-byte creator tag.
pub open spec fn save_bytes(m: SaveModel) -> Seq<u8> {
    m.hash + be_bytes(m.memo_size, 8) + encode_utf8(m.memo) + be_bytes(m.created_date, 16)
        + m.creator
}

/// Reads one commit header from the front of `b`, slicing the memo by the
/// preceding size field, never by a delimiter.
pub open spec fn parse_save(b: Seq<u8>) -> Option<SaveModel> {
    if b.len() < 120 {
        None
    } else {
        let ms = be_value(b.subrange(64, 72)) as int;
        if 120 + ms > b.len() {
            None
        } else {
            let memo_bytes = b.subrange(72, 72 + ms);
            if !valid_utf8(memo_bytes) {
                None
            } else {
                Some(
                    SaveModel {
                        hash: b.subrange(0, 64),
                        memo: decode_utf8(memo_bytes),
                        memo_size: ms as nat,
                        created_date: be_value(b.subrange(72 + ms, 88 + ms)),
                        creator: b.subrange(88 + ms, 120 + ms),
                    },
                )
            }
        }
    }
}

/// The error that reading a commit header from `b` reports, where it does.
pub open spec fn save_err(b: Seq<u8>) -> StoreError {
    if b.len() < 120 {
        StoreError::Truncated
    } else if 120 + be_value(b.subrange(64, 72)) > b.len() {
        StoreError::Truncated
    } else {
        StoreError::BadUtf8
    }
}

/// Serializing a well-formed commit header and reading it back, with
/// anything after it, yields the header again.
pub proof fn lemma_parse_save_of_bytes(m: SaveModel, rest: Seq<u8>)
    requires
        m.wf(),
    ensures
        save_bytes(m).len() == m.len(),
        parse_save(save_bytes(m) + rest) == Some(m),
        (save_bytes(m) + rest).subrange(m.len() as int, (save_bytes(m) + rest).len() as int)
            == rest,
{
    let b = save_bytes(m) + rest;
    lemma_be_bytes_len(m.memo_size, 8);
    lemma_be_bytes_len(m.created_date, 16);
    let ms = m.memo_size as int;
    assert(b.subrange(0, 64) =~= m.hash);
    assert(b.subrange(64, 72) =~= be_bytes(m.memo_size, 8));
    assert(b.subrange(72, 72 + ms) =~= encode_utf8(m.memo));
    assert(b.subrange(72 + ms, 88 + ms) =~= be_bytes(m.created_date, 16));
    assert(b.subrange(88 + ms, 120 + ms) =~= m.creator);
    lemma_be_value_of_be_bytes(m.memo_size, 8);
    lemma_be_value_of_be_bytes(m.created_date, 16);
    encode_utf8_valid_utf8(m.memo);
    encode_utf8_decode_utf8(m.memo);
    assert(b.subrange(m.len() as int, b.len() as int) =~= rest);
}

/// The metadata wrapped around a blob by a save: the commit's identifying
/// hash, the user's memo, the creation timestamp, and a creator tag.
#[derive(Debug)]
pub struct SaveHeaders {
    pub hash: Vec<u8>,
    pub memo: String,
    pub memo_size: usize,
    pub created_date: u128,
    pub creator: Vec<u8>,
}

impl View for SaveHeaders {
    type V = SaveModel;

    open spec fn view(&self) -> SaveModel {
        SaveModel {
            hash: self.hash@,
            memo: self.memo@,
            memo_size: self.memo_size as nat,
            created_date: self.created_date as nat,
            creator: self.creator@,
        }
    }
}

impl SaveHeaders {
    /// Serializes this commit header into its wire layout.
    pub fn to_bytes(&self) -> (r: Vec<u8>)
        ensures
            r@ == save_bytes(self@),
    {
        let mut b: Vec<u8> = Vec::new();
        b.extend_from_slice(self.hash.as_slice());
        let ms = u128_to_be_bytes(self.memo_size as u128, 8);
        b.extend_from_slice(ms.as_slice());
        b.extend_from_slice(self.memo.as_str().as_bytes());
        let cd = u128_to_be_bytes(self.created_date, 16);
        b.extend_from_slice(cd.as_slice());
        b.extend_from_slice(self.creator.as_slice());
        b
    }

    /// Reads one commit header from the front of `bytes`; the spec parser
    /// says exactly what comes back, and which error otherwise.
    pub fn from_bytes(bytes: &Vec<u8>) -> (r: Result<SaveHeaders, StoreError>)
        ensures
            match r {
                Ok(h) => {
                    &&& parse_save(bytes@) == Some(h@)
                    &&& h@.wf()
                },
                Err(e) => {
                    &&& parse_save(bytes@) is None
                    &&& e == save_err(bytes@)
                },
            },
    {
        let blen = bytes.len();
        if blen < 120 {
            return Err(StoreError::Truncated);
        }
        let mut cursor: usize = 0;
        let hash = read(bytes, &mut cursor, 64);
        let memo_size_v = u128_from_be_bytes(bytes, 64, 8);
        if memo_size_v > ((blen - 120) as u128) {
            return Err(StoreError::Truncated);
        }
        let ms = memo_size_v as usize;
        cursor = 72;
        let memo_bytes = read(bytes, &mut cursor, ms);
        let memo = match string_from_utf8(memo_bytes) {
            Some(s) => s,
            None => {
                return Err(StoreError::BadUtf8);
            },
        };
        let created_date = u128_from_be_bytes(bytes, 72 + ms, 16);
        cursor = 88 + ms;
        let creator = read(bytes, &mut cursor, 32);
        proof {
            lemma_be_value_bound(bytes@.subrange(64, 72));
            lemma_be_value_bound(bytes@.subrange(72 + ms, 88 + ms));
            decode_utf8_encode_utf8(bytes@.subrange(72, 72 + ms));
        }
        Ok(SaveHeaders { hash, memo, memo_size: ms, created_date, creator })
    }

    /// The number of bytes this commit header occupies when serialized.
    pub fn len(&self) -> (r: usize)
        requires
            self.memo_size <= usize::MAX - 120,
        ensures
            r == self@.len(),
    {
        HASH_LENGTH + USIZE_LEN + self.memo_size + U128_LEN + CREATOR_LENGTH
    }
}

/// A full commit record: its header followed by the compressed blob.
#[derive(Debug)]
pub struct Save {
    pub headers: SaveHeaders,
    pub blob: Blob,
}

impl Save {
    /// Serializes the whole record: the commit header's bytes, then the
    /// compressed blob, exactly. The buffer is built whole before any
    /// caller writes it anywhere.
    pub fn to_bytes(&self) -> (r: Vec<u8>)
        requires
            self.blob@.wf(),
        ensures
            r@ == save_bytes(self.headers@) + zstd_encoding(blob_payload(self.blob@)),
    {
        let mut bytes = self.headers.to_bytes();
        let blob_bytes = self.blob.to_bytes();
        bytes.extend_from_slice(blob_bytes.as_slice());
        bytes
    }

    /// Reads a commit record back: the header by the spec parser, then the
    /// rest of the buffer decompressed and parsed as a blob.
    pub fn from_bytes(bytes: &Vec<u8>) -> (r: Result<Save, StoreError>)
        ensures
            parse_save(bytes@) is None ==> r is Err,
            r matches Ok(s) ==> {
                &&& parse_save(bytes@) == Some(s.headers@)
                &&& s.headers@.wf()
                &&& s.blob@.wf()
                &&& zstd_decoding(
                    bytes@.subrange(s.headers@.len() as int, bytes@.len() as int),
                ) matches Some(d) && blob_outcome_ok(d, Ok(s.blob))
            },
            ({
                &&& parse_save(bytes@) matches Some(hm)
                &&& zstd_decoding(
                    bytes@.subrange(hm.len() as int, bytes@.len() as int),
                ) is None
            }) ==> (r matches Err(e) && e == StoreError::Corrupt),
            ({
                &&& parse_save(bytes@) matches Some(hm)
                &&& zstd_decoding(
                    bytes@.subrange(hm.len() as int, bytes@.len() as int),
                ) matches Some(d)
                &&& parse_blob(d) matches Some(bm)
                &&& blob_fits(bm)
            }) ==> r is Ok,
    {
        let headers = match SaveHeaders::from_bytes(bytes) {
            Ok(h) => h,
            Err(e) => {
                return Err(e);
            },
        };
        let hl = headers.len();
        let mut cursor: usize = hl;
        let rest = read(bytes, &mut cursor, bytes.len() - hl);
        let blob = match Blob::from_bytes(&rest) {
            Ok(b) => b,
            Err(e) => {
                proof {
                    assert(rest@ =~= bytes@.subrange(
                        headers@.len() as int,
                        bytes@.len() as int,
                    ));
                }
                return Err(e);
            },
        };
        proof {
            assert(rest@ =~= bytes@.subrange(headers@.len() as int, bytes@.len() as int));
        }
        Ok(Save { headers, blob })
    }
}

/// The round trip of a whole commit record, stated over the models: lay a
/// well-formed commit header before the compressed payload of a well-formed
/// blob, and parsing recovers the header, the compressed region, and -- once
/// decompressed -- the blob, field by field. The memo, being
/// length-prefixed, comes back whole however long it is; the fixed-width
/// hash and creator fields come back exactly as stored.
pub proof fn lemma_save_round_trip(h: SaveModel, b: BlobModel)
    requires
        h.wf(),
        b.wf(),
    ensures
        parse_save(save_bytes(h) + zstd_encoding(blob_payload(b))) == Some(h),
        (save_bytes(h) + zstd_encoding(blob_payload(b))).subrange(
            h.len() as int,
            (save_bytes(h) + zstd_encoding(blob_payload(b))).len() as int,
        ) == zstd_encoding(blob_payload(b)),
        parse_blob(blob_payload(b)) == Some(b),
{
    lemma_parse_save_of_bytes(h, zstd_encoding(blob_payload(b)));
    lemma_parse_blob_of_payload(b);
}

/// The round trip of a packed blob, stated over the models: serializing the
/// blob that packing a file list produces and parsing the payload back
/// yields that same blob, and looking any packed file up by name returns
/// exactly its original bytes, provided no earlier file bears the same name.
pub proof fn lemma_blob_round_trip(fs: Seq<BlobFileModel>, i: int)
    requires
        files_wf(fs),
        pack_fits(fs),
        0 <= i < fs.len(),
        forall|j: int| 0 <= j < i ==> (#[trigger] fs[j]).filename != fs[i].filename,
    ensures
        parse_blob(blob_payload(pack_model(fs))) == Some(pack_model(fs)),
        find_file(pack_model(fs).headers, pack_model(fs).data, fs[i].filename) == Some(
            fs[i].content,
        ),
{
    lemma_pack_model_wf(fs);
    lemma_parse_blob_of_payload(pack_model(fs));
    lemma_find_packed(fs, 0, i);
    assert(pack_headers(fs).skip(0) =~= pack_headers(fs));
    assert(fs[i].content.subrange(0, fs[i].content.len() as int) =~= fs[i].content);
}

/// Packing a list whose total size fits yields a well-formed blob.
pub proof fn lemma_pack_model_wf(fs: Seq<BlobFileModel>)
    requires
        files_wf(fs),
        pack_fits(fs),
    ensures
        pack_model(fs).wf(),
        pack_model(fs).locations_ok(),
{
    let m = pack_model(fs);
    lemma_pack_data_len(fs, fs.len() as int);
    assert(fs.take(fs.len() as int) =~= fs);
    assert forall|j: int| 0 <= j < m.headers.len() implies (#[trigger] m.headers[j]).wf() by {
        assert(m.headers[j] == pack_header(fs, j));
        assert(fs[j].last_modified < pow256(16));
        lemma_header_le_size(pack_headers(fs), j);
        lemma_data_offset_monotone(fs, j + 1, fs.len() as int);
        lemma_pow256_16();
    }
    assert forall|j: int| 0 <= j < m.headers.len() implies (#[trigger] m.headers[j])
        .content_location + m.headers[j].content_length <= m.data.len() by {
        lemma_data_offset_monotone(fs, j + 1, fs.len() as int);
    }
}

/// Scanning the packed headers from position `k` finds file `i`'s bytes,
/// provided files `k..i` bear other names.
proof fn lemma_find_packed(fs: Seq<BlobFileModel>, k: int, i: int)
    requires
        pack_fits(fs),
        0 <= k <= i < fs.len(),
        forall|j: int| k <= j < i ==> (#[trigger] fs[j]).filename != fs[i].filename,
    ensures
        find_file(
            pack_headers(fs).skip(k),
            pack_data(fs),
            fs[i].filename,
        ) == Some(fs[i].content.subrange(0, fs[i].content.len() as int)),
    decreases i - k,
{
    let hs = pack_headers(fs).skip(k);
    assert(hs.first() == pack_header(fs, k));
    if k == i {
        lemma_pack_slice(fs, i);
        assert(pack_data(fs).subrange(
            data_offset(fs, i) as int,
            data_offset(fs, i) + fs[i].content.len() as int,
        ) == fs[i].content.subrange(0, fs[i].content.len() as int));
    } else {
        assert(hs.drop_first() =~= pack_headers(fs).skip(k + 1));
        lemma_find_packed(fs, k + 1, i);
    }
}

/// File i's content range in the packed data buffer holds exactly its bytes.
proof fn lemma_pack_slice(fs: Seq<BlobFileModel>, i: int)
    requires
        0 <= i < fs.len(),
    ensures
        data_offset(fs, i) + fs[i].content.len() <= pack_data(fs).len(),
        pack_data(fs).subrange(
            data_offset(fs, i) as int,
            data_offset(fs, i) + fs[i].content.len() as int,
        ) == fs[i].content.subrange(0, fs[i].content.len() as int),
    decreases fs.len(),
{
    lemma_pack_data_len(fs, fs.len() as int);
    assert(fs.take(fs.len() as int) =~= fs);
    lemma_data_offset_monotone(fs, i + 1, fs.len() as int);
    if i == fs.len() - 1 {
        lemma_pack_data_len(fs, i);
        assert(pack_data(fs) == pack_data(fs.drop_last()) + fs.last().content);
        assert(fs.drop_last() =~= fs.take(i));
        assert(pack_data(fs).subrange(
            data_offset(fs, i) as int,
            data_offset(fs, i) + fs[i].content.len() as int,
        ) =~= fs[i].content.subrange(0, fs[i].content.len() as int));
    } else {
        let g = fs.drop_last();
        lemma_pack_slice(g, i);
        assert(g[i] == fs[i]);
        lemma_data_offset_take(fs, i);
        assert(pack_data(fs) == pack_data(g) + fs.last().content);
        assert(pack_data(fs).subrange(
            data_offset(fs, i) as int,
            data_offset(fs, i) + fs[i].content.len() as int,
        ) =~= pack_data(g).subrange(
            data_offset(g, i) as int,
            data_offset(g, i) + g[i].content.len() as int,
        ));
    }
}

/// Offsets up to position i depend only on the first i files.
proof fn lemma_data_offset_take(fs: Seq<BlobFileModel>, i: int)
    requires
        0 <= i < fs.len(),
    ensures
        data_offset(fs.drop_last(), i) == data_offset(fs, i),
    decreases i,
{
    if i > 0 {
        assert(fs.drop_last()[i - 1] == fs[i - 1]);
        lemma_data_offset_take(fs, i - 1);
    }
}

/// Builds the record that a save persists: packs the staged files into a
/// blob, derives the commit hash by hashing the decimal rendering of the
/// timestamp (a commit identifier, not a content fingerprint), and fills
/// the fixed-width hash and creator fields by truncating or zero-padding.
/// The memo is carried whole, never truncated.
pub fn make_save(memo: String, files: Vec<BlobFile>, now: u128) -> (r: Save)
    requires
        encode_utf8(memo@).len() <= usize::MAX - 120,
    ensures
        r.headers@.hash == spec_fixed(
            encode_utf8(hex_of(sha256_digest(encode_utf8(crate::strutil::spec_decimal(now as nat))))),
            64,
        ),
        r.headers@.memo == memo@,
        r.headers@.memo_size == encode_utf8(memo@).len(),
        r.headers@.created_date == now as nat,
        r.headers@.creator == spec_fixed(encode_utf8("recall"@), 32),
        r.headers@.wf(),
        r.blob@ == pack_model(file_models_of(files@)),
        pack_fits(file_models_of(files@)) ==> r.blob@.wf(),
        r.blob@.locations_ok(),
{
    let blob = blobify(files);
    let digits = crate::strutil::u128_decimal(now);
    let ts = crate::strutil::chars_to_string(&digits);
    let ts_bytes = ts.as_str().as_bytes_vec();
    let hash_str = crate::files::get_hash(&ts_bytes);
    let hash_bytes = hash_str.as_str().as_bytes_vec();
    let hash = to_fixed_bytes(&hash_bytes, HASH_LENGTH);
    let creator_tag = String::from_str("recall");
    let creator_bytes = creator_tag.as_str().as_bytes_vec();
    let creator = to_fixed_bytes(&creator_bytes, CREATOR_LENGTH);
    let memo_size = memo.as_str().as_bytes().len();
    proof {
        lemma_pow256_16();
        assert(usize::MAX < pow256(8));
    }
    Save {
        headers: SaveHeaders { hash, memo, memo_size, created_date: now, creator },
        blob,
    }
}

} // verus!
