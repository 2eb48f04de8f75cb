use bytebuffer::ByteBuffer;
use vstd::prelude::*;
use vstd::utf8::*;
use crate::file::codec::{
    be_u32, be_u64, i32_bits, i32_of_bits, overwrite, u32_be_bytes, u64_be_bytes, zeros,
};

verus! {

/// The byte buffer of the `bytebuffer` crate: bytes with a reading and a writing
/// cursor. The verifier sees nothing inside it; what this library says of it, it
/// says through the four functions below, and takes on trust from the contracts
/// that follow them.
#[verifier::external_type_specification]
#[verifier::external_body]
pub struct ExByteBuffer(ByteBuffer);

/// The bytes that a buffer holds, first to last.
pub uninterp spec fn buffer_bytes(b: ByteBuffer) -> Seq<u8>;

/// The position of a buffer's reading cursor.
pub uninterp spec fn buffer_rpos(b: ByteBuffer) -> nat;

/// The position of a buffer's writing cursor.
pub uninterp spec fn buffer_wpos(b: ByteBuffer) -> nat;

/// Whether a buffer is in big-endian order with no bit-wise read or write pending.
pub uninterp spec fn buffer_plain(b: ByteBuffer) -> bool;

/// `ByteBuffer::new`: an empty big-endian buffer with both cursors at 0.
pub assume_specification[ ByteBuffer::new ]() -> (b: ByteBuffer)
    ensures
        buffer_bytes(b) == Seq::<u8>::empty(),
        buffer_rpos(b) == 0,
        buffer_wpos(b) == 0,
        buffer_plain(b),
;

/// `ByteBuffer::len`: the number of bytes held.
pub assume_specification[ ByteBuffer::len ](b: &ByteBuffer) -> (n: usize)
    ensures
        n == buffer_bytes(*b).len(),
;

/// `ByteBuffer::resize`: appends zero bytes up to `size`; it cannot shrink.
pub assume_specification[ ByteBuffer::resize ](b: &mut ByteBuffer, size: usize)
    requires
        buffer_bytes(*old(b)).len() <= size,
    ensures
        buffer_bytes(*final(b)) == buffer_bytes(*old(b)) + zeros(
            (size - buffer_bytes(*old(b)).len()) as nat,
        ),
        buffer_rpos(*final(b)) == buffer_rpos(*old(b)),
        buffer_wpos(*final(b)) == buffer_wpos(*old(b)),
        buffer_plain(*final(b)) == buffer_plain(*old(b)),
;

/// `ByteBuffer::from_bytes`: a big-endian buffer that holds a copy of `bytes`, with
/// the reading cursor at 0 and the writing cursor at the end.
pub assume_specification[ ByteBuffer::from_bytes ](bytes: &[u8]) -> (b: ByteBuffer)
    ensures
        buffer_bytes(b) == bytes@,
        buffer_rpos(b) == 0,
        buffer_wpos(b) == bytes@.len(),
        buffer_plain(b),
;

/// `ByteBuffer::as_bytes`: the bytes held, as a slice.
pub assume_specification<'a>[ ByteBuffer::as_bytes ](b: &'a ByteBuffer) -> (bytes: &'a [u8])
    ensures
        bytes@ == buffer_bytes(*b),
;

/// `ByteBuffer::clone`: a copy with the same bytes, cursors and order.
pub assume_specification[ <ByteBuffer as Clone>::clone ](b: &ByteBuffer) -> (c: ByteBuffer)
    ensures
        buffer_bytes(c) == buffer_bytes(*b),
        buffer_rpos(c) == buffer_rpos(*b),
        buffer_wpos(c) == buffer_wpos(*b),
        buffer_plain(c) == buffer_plain(*b),
;

/// `ByteBuffer::set_rpos`: moves the reading cursor to `rpos`, or to the end if
/// `rpos` lies beyond it.
pub assume_specification[ ByteBuffer::set_rpos ](b: &mut ByteBuffer, rpos: usize)
    ensures
        buffer_rpos(*final(b)) == if rpos <= buffer_bytes(*old(b)).len() {
            rpos as nat
        } else {
            buffer_bytes(*old(b)).len()
        },
        buffer_bytes(*final(b)) == buffer_bytes(*old(b)),
        buffer_wpos(*final(b)) == buffer_wpos(*old(b)),
        buffer_plain(*final(b)) == buffer_plain(*old(b)),
;

/// `ByteBuffer::set_wpos`: moves the writing cursor to `wpos`, or to the end if
/// `wpos` lies beyond it.
pub assume_specification[ ByteBuffer::set_wpos ](b: &mut ByteBuffer, wpos: usize)
    ensures
        buffer_wpos(*final(b)) == if wpos <= buffer_bytes(*old(b)).len() {
            wpos as nat
        } else {
            buffer_bytes(*old(b)).len()
        },
        buffer_bytes(*final(b)) == buffer_bytes(*old(b)),
        buffer_rpos(*final(b)) == buffer_rpos(*old(b)),
        buffer_plain(*final(b)) == buffer_plain(*old(b)),
;

/// What a write of `bytes` at the writing cursor leaves behind, where the bytes fit
/// below the end of the buffer: they replace what was there and the cursor moves
/// past them.
pub open spec fn wrote(before: ByteBuffer, after: ByteBuffer, bytes: Seq<u8>) -> bool {
    &&& buffer_bytes(after) == overwrite(buffer_bytes(before), buffer_wpos(before) as int, bytes)
    &&& buffer_wpos(after) == buffer_wpos(before) + bytes.len()
    &&& buffer_rpos(after) == buffer_rpos(before)
    &&& buffer_plain(after)
}

/// Whether `n` more bytes fit between the writing cursor and the end of a plain buffer.
pub open spec fn can_write(b: ByteBuffer, n: nat) -> bool {
    buffer_plain(b) && buffer_wpos(b) + n <= buffer_bytes(b).len()
}

/// `ByteBuffer::write_bytes`: copies `bytes` to the writing cursor.
pub assume_specification[ ByteBuffer::write_bytes ](b: &mut ByteBuffer, bytes: &[u8])
    requires
        can_write(*old(b), bytes@.len()),
    ensures
        wrote(*old(b), *final(b), bytes@),
;

/// `ByteBuffer::write_u32`: writes the four bytes of `val`, most significant first.
pub assume_specification[ ByteBuffer::write_u32 ](b: &mut ByteBuffer, val: u32)
    requires
        can_write(*old(b), 4),
    ensures
        wrote(*old(b), *final(b), u32_be_bytes(val)),
;

/// `ByteBuffer::write_i32`: writes the two's complement pattern of `val` as
/// `write_u32` does.
pub assume_specification[ ByteBuffer::write_i32 ](b: &mut ByteBuffer, val: i32)
    requires
        can_write(*old(b), 4),
    ensures
        wrote(*old(b), *final(b), u32_be_bytes(i32_bits(val))),
;

/// `ByteBuffer::write_u64`: writes the eight bytes of `val`, most significant first.
pub assume_specification[ ByteBuffer::write_u64 ](b: &mut ByteBuffer, val: u64)
    requires
        can_write(*old(b), 8),
    ensures
        wrote(*old(b), *final(b), u64_be_bytes(val)),
;

/// The encoding of a string in a buffer: the length of its UTF-8 form as a 32-bit
/// number, then that form.
pub open spec fn string_bytes(chars: Seq<char>) -> Seq<u8> {
    u32_be_bytes(encode_utf8(chars).len() as u32) + encode_utf8(chars)
}

/// `ByteBuffer::write_string`: writes the byte length of `val` as `write_u32` does,
/// then its UTF-8 bytes.
pub assume_specification[ ByteBuffer::write_string ](b: &mut ByteBuffer, val: &str)
    requires
        encode_utf8(val@).len() <= u32::MAX,
        can_write(*old(b), 4 + encode_utf8(val@).len()),
    ensures
        wrote(*old(b), *final(b), string_bytes(val@)),
;

/// The `n` bytes at the reading cursor.
pub open spec fn next_bytes(b: ByteBuffer, n: nat) -> Seq<u8> {
    buffer_bytes(b).subrange(buffer_rpos(b) as int, (buffer_rpos(b) + n) as int)
}

/// What a read of `n` bytes leaves behind: the cursor has moved past them.
pub open spec fn read_past(before: ByteBuffer, after: ByteBuffer, n: nat) -> bool {
    &&& buffer_bytes(after) == buffer_bytes(before)
    &&& buffer_rpos(after) == buffer_rpos(before) + n
    &&& buffer_wpos(after) == buffer_wpos(before)
    &&& buffer_plain(after)
}

/// `ByteBuffer::read_u32`: the number in the four bytes at the reading cursor, most
/// significant first; nothing, with the buffer unchanged, where fewer than four
/// bytes are left.
#[verifier::external_body]
pub(crate) fn read_u32(b: &mut ByteBuffer) -> (r: Option<u32>)
    requires
        buffer_plain(*old(b)),
    ensures
        r is Some <==> buffer_rpos(*old(b)) + 4 <= buffer_bytes(*old(b)).len(),
        r matches Some(v) ==> v == be_u32(next_bytes(*old(b), 4)) && read_past(*old(b), *final(b), 4),
        r is None ==> read_past(*old(b), *final(b), 0),
{
    b.read_u32().ok()
}

/// `ByteBuffer::read_i32`: as `read_u32`, with the bit pattern taken as a signed
/// number.
#[verifier::external_body]
pub(crate) fn read_i32(b: &mut ByteBuffer) -> (r: Option<i32>)
    requires
        buffer_plain(*old(b)),
    ensures
        r is Some <==> buffer_rpos(*old(b)) + 4 <= buffer_bytes(*old(b)).len(),
        r matches Some(v) ==> v == i32_of_bits(be_u32(next_bytes(*old(b), 4))) && read_past(
            *old(b),
            *final(b),
            4,
        ),
        r is None ==> read_past(*old(b), *final(b), 0),
{
    b.read_i32().ok()
}

/// `ByteBuffer::read_u64`: the number in the eight bytes at the reading cursor, most
/// significant first; nothing, with the buffer unchanged, where fewer than eight
/// bytes are left.
#[verifier::external_body]
pub(crate) fn read_u64(b: &mut ByteBuffer) -> (r: Option<u64>)
    requires
        buffer_plain(*old(b)),
    ensures
        r is Some <==> buffer_rpos(*old(b)) + 8 <= buffer_bytes(*old(b)).len(),
        r matches Some(v) ==> v == be_u64(next_bytes(*old(b), 8)) && read_past(*old(b), *final(b), 8),
        r is None ==> read_past(*old(b), *final(b), 0),
{
    b.read_u64().ok()
}

/// `ByteBuffer::read_bytes`: a copy of the `size` bytes at the reading cursor, which
/// the caller has made sure are there.
#[verifier::external_body]
pub(crate) fn read_bytes(b: &mut ByteBuffer, size: usize) -> (r: Option<Vec<u8>>)
    requires
        buffer_plain(*old(b)),
        buffer_rpos(*old(b)) + size <= buffer_bytes(*old(b)).len(),
    ensures
        r matches Some(v) && v@ == next_bytes(*old(b), size as nat),
        read_past(*old(b), *final(b), size as nat),
{
    b.read_bytes(size).ok()
}

/// Whether a 32-bit length and as many bytes after it lie at `at` in `bytes`.
pub open spec fn prefixed_fits(bytes: Seq<u8>, at: int) -> bool {
    &&& 0 <= at
    &&& at + 4 <= bytes.len()
    &&& at + 4 + be_u32(bytes.subrange(at, at + 4)) <= bytes.len()
}

/// The bytes that follow the 32-bit length at `at`, as many as it says.
pub open spec fn prefixed_payload(bytes: Seq<u8>, at: int) -> Seq<u8> {
    bytes.subrange(at + 4, at + 4 + be_u32(bytes.subrange(at, at + 4)))
}

/// `ByteBuffer::read_string`: reads a length as `read_u32` does and then as many
/// bytes, which the caller has made sure are there; the string that they encode, or
/// nothing where they are not UTF-8.
#[verifier::external_body]
pub(crate) fn read_string(b: &mut ByteBuffer) -> (r: Option<String>)
    requires
        buffer_plain(*old(b)),
        prefixed_fits(buffer_bytes(*old(b)), buffer_rpos(*old(b)) as int),
    ensures
        r is Some <==> valid_utf8(prefixed_payload(buffer_bytes(*old(b)), buffer_rpos(*old(b)) as int)),
        r matches Some(s) ==> s@ == decode_utf8(
            prefixed_payload(buffer_bytes(*old(b)), buffer_rpos(*old(b)) as int),
        ),
        buffer_bytes(*final(b)) == buffer_bytes(*old(b)),
        buffer_wpos(*final(b)) == buffer_wpos(*old(b)),
        buffer_plain(*final(b)),
{
    b.read_string().ok()
}

} // verus!
