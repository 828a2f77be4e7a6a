//! The fixed-layout entry header record and the byte-level pieces of the
//! wire format: NUL-terminated strings and little-endian `u32` fields.

use vstd::prelude::*;
use vstd::slice::slice_subrange;
use vstd::utf8::{decode_utf8, encode_utf8, valid_utf8};

verus! {

/// Packing method that marks the header-extension block instead of a file.
pub const SENTINEL: u32 = 0x56657273;

/// Why an archive could not be decoded, or a lookup failed.
#[derive(Debug, Clone, Copy, PartialEq, Eq, Structural)]
pub enum PboError {
    /// The bytes ended before a field, a content or the checksum was complete.
    Truncated,
    /// A name or a metadata string is not valid UTF-8.
    InvalidText,
    /// The extension block appeared after the first header.
    MisplacedSentinel,
    /// The requested entry is not in the archive.
    NotFound,
}

/// One header record: a file's name, sizes and carried-through fields.
pub struct PBOHeader {
    pub filename: String,
    pub packing_method: u32,
    pub original_size: u32,
    pub reserved: u32,
    pub timestamp: u32,
    pub data_size: u32,
}

/// The mathematical value of a header.
pub struct HeaderView {
    pub filename: Seq<char>,
    pub packing_method: u32,
    pub original_size: u32,
    pub reserved: u32,
    pub timestamp: u32,
    pub data_size: u32,
}

impl View for PBOHeader {
    type V = HeaderView;

    open spec fn view(&self) -> HeaderView {
        HeaderView {
            filename: self.filename@,
            packing_method: self.packing_method,
            original_size: self.original_size,
            reserved: self.reserved,
            timestamp: self.timestamp,
            data_size: self.data_size,
        }
    }
}

/// The four little-endian bytes of `x`.
pub open spec fn le_bytes(x: u32) -> Seq<u8> {
    seq![(x & 0xff) as u8, ((x >> 8) & 0xff) as u8, ((x >> 16) & 0xff) as u8, ((x >> 24) & 0xff) as u8]
}

/// The `u32` stored little-endian in `b[pos..pos + 4]`.
pub open spec fn le_value(b: Seq<u8>, pos: int) -> u32 {
    (b[pos] as u32) | ((b[pos + 1] as u32) << 8) | ((b[pos + 2] as u32) << 16) | ((b[pos + 3] as u32) << 24)
}

/// A string as it is stored: its UTF-8 bytes, then a NUL.
pub open spec fn cstring_bytes(s: Seq<char>) -> Seq<u8> {
    encode_utf8(s) + seq![0u8]
}

/// The bytes of one header record.
pub open spec fn header_bytes(h: HeaderView) -> Seq<u8> {
    cstring_bytes(h.filename) + le_bytes(h.packing_method) + le_bytes(h.original_size) + le_bytes(
        h.reserved,
    ) + le_bytes(h.timestamp) + le_bytes(h.data_size)
}

/// Index of the first NUL at or after `pos`.
pub open spec fn nul_index(b: Seq<u8>, pos: int) -> Option<int>
    decreases b.len() - pos,
{
    if pos < 0 || pos >= b.len() {
        None
    } else if b[pos] == 0 {
        Some(pos)
    } else {
        nul_index(b, pos + 1)
    }
}

/// The NUL-terminated string at `pos` and the position after its NUL.
pub open spec fn cstring_at(b: Seq<u8>, pos: int) -> Result<(Seq<char>, int), PboError> {
    match nul_index(b, pos) {
        None => Err(PboError::Truncated),
        Some(e) => if valid_utf8(b.subrange(pos, e)) {
            Ok((decode_utf8(b.subrange(pos, e)), e + 1))
        } else {
            Err(PboError::InvalidText)
        },
    }
}

/// The header record at `pos` and the position after it.
pub open spec fn header_at(b: Seq<u8>, pos: int) -> Result<(HeaderView, int), PboError> {
    match cstring_at(b, pos) {
        Err(e) => Err(e),
        Ok((name, p)) => if p + 20 <= b.len() {
            Ok(
                (
                    HeaderView {
                        filename: name,
                        packing_method: le_value(b, p),
                        original_size: le_value(b, p + 4),
                        reserved: le_value(b, p + 8),
                        timestamp: le_value(b, p + 12),
                        data_size: le_value(b, p + 16),
                    },
                    p + 20,
                ),
            )
        } else {
            Err(PboError::Truncated)
        },
    }
}

pub proof fn lemma_le_round_trip(x: u32)
    ensures
        le_value(le_bytes(x), 0) == x,
{
    let b = le_bytes(x);
    let b0 = (x & 0xff) as u8;
    let b1 = ((x >> 8) & 0xff) as u8;
    let b2 = ((x >> 16) & 0xff) as u8;
    let b3 = ((x >> 24) & 0xff) as u8;
    assert(b[0] == b0 && b[1] == b1 && b[2] == b2 && b[3] == b3);
    assert((b0 as u32) | ((b1 as u32) << 8) | ((b2 as u32) << 16) | ((b3 as u32) << 24) == x)
        by (bit_vector)
        requires
            b0 == (x & 0xff) as u8,
            b1 == ((x >> 8) & 0xff) as u8,
            b2 == ((x >> 16) & 0xff) as u8,
            b3 == ((x >> 24) & 0xff) as u8,
    ;
}

/// Appends the bytes of `src` to `out`.
pub fn push_bytes(out: &mut Vec<u8>, src: &[u8])
    ensures
        final(out)@ == old(out)@ + src@,
{
    let ghost start = out@;
    let mut i: usize = 0;
    while i < src.len()
        invariant
            0 <= i <= src@.len(),
            out@ == start + src@.subrange(0, i as int),
        decreases src@.len() - i,
    {
        out.push(src[i]);
        i = i + 1;
        assert(out@ =~= start + src@.subrange(0, i as int));
    }
    assert(src@.subrange(0, i as int) =~= src@);
}

/// Appends `x` in little-endian order.
pub fn push_u32(out: &mut Vec<u8>, x: u32)
    ensures
        final(out)@ == old(out)@ + le_bytes(x),
{
    let ghost start = out@;
    out.push((x & 0xff) as u8);
    out.push(((x >> 8) & 0xff) as u8);
    out.push(((x >> 16) & 0xff) as u8);
    out.push(((x >> 24) & 0xff) as u8);
    assert(out@ =~= start + le_bytes(x));
}

/// Appends `s` and a terminating NUL.
pub fn push_cstring(out: &mut Vec<u8>, s: &str)
    ensures
        final(out)@ == old(out)@ + cstring_bytes(s@),
{
    let ghost start = out@;
    push_bytes(out, s.as_bytes());
    out.push(0u8);
    assert(out@ =~= start + cstring_bytes(s@));
}

/// Reads the `u32` stored little-endian at `pos`.
pub fn read_u32(b: &[u8], pos: usize) -> (r: u32)
    requires
        pos + 4 <= b@.len(),
    ensures
        r == le_value(b@, pos as int),
{
    (b[pos] as u32) | ((b[pos + 1] as u32) << 8) | ((b[pos + 2] as u32) << 16) | ((b[pos + 3] as u32)
        << 24)
}

/// Relies on String::from_utf8: it succeeds exactly on valid UTF-8 and
/// then yields the characters that the bytes encode.
#[verifier::external_body]
pub(crate) fn text_from_utf8(v: &[u8]) -> (r: Option<String>)
    ensures
        r is Some <==> valid_utf8(v@),
        r matches Some(s) ==> s@ == decode_utf8(v@),
{
    String::from_utf8(v.to_vec()).ok()
}

/// Reads the NUL-terminated string at `pos`.
pub fn read_cstring(b: &[u8], pos: usize) -> (r: Result<(String, usize), PboError>)
    ensures
        match (r, cstring_at(b@, pos as int)) {
            (Ok((s, p)), Ok((t, q))) => s@ == t && p == q,
            (Err(e), Err(f)) => e == f,
            _ => false,
        },
{
    let mut i: usize = pos;
    while i < b.len()
        invariant
            nul_index(b@, pos as int) == nul_index(b@, i as int),
            pos <= i,
        decreases b@.len() - i,
    {
        if b[i] == 0 {
            let name = slice_subrange(b, pos, i);
            return match text_from_utf8(name) {
                Some(s) => Ok((s, i + 1)),
                None => Err(PboError::InvalidText),
            };
        }
        i = i + 1;
    }
    Err(PboError::Truncated)
}

impl PBOHeader {
    /// Decodes the header at `pos` of `input`: a NUL-terminated name, then
    /// five little-endian `u32` fields.
    pub fn read(input: &[u8], pos: usize) -> (r: Result<(PBOHeader, usize), PboError>)
        ensures
            match (r, header_at(input@, pos as int)) {
                (Ok((h, p)), Ok((g, q))) => h@ == g && p == q,
                (Err(e), Err(f)) => e == f,
                _ => false,
            },
    {
        let (filename, p) = match read_cstring(input, pos) {
            Ok(x) => x,
            Err(e) => return Err(e),
        };
        if p > input.len() || input.len() - p < 20 {
            return Err(PboError::Truncated);
        }
        let h = PBOHeader {
            filename,
            packing_method: read_u32(input, p),
            original_size: read_u32(input, p + 4),
            reserved: read_u32(input, p + 8),
            timestamp: read_u32(input, p + 12),
            data_size: read_u32(input, p + 16),
        };
        Ok((h, p + 20))
    }

    /// Appends the encoded header to `output`.
    pub fn write(&self, output: &mut Vec<u8>)
        ensures
            final(output)@ == old(output)@ + header_bytes(self@),
    {
        let ghost start = output@;
        push_cstring(output, self.filename.as_str());
        push_u32(output, self.packing_method);
        push_u32(output, self.original_size);
        push_u32(output, self.reserved);
        push_u32(output, self.timestamp);
        push_u32(output, self.data_size);
        assert(output@ =~= start + header_bytes(self@));
    }
}

} // verus!
