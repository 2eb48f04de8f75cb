use bytebuffer::ByteBuffer;
use vstd::prelude::*;
use vstd::slice::slice_to_vec;
use vstd::utf8::{decode_utf8, encode_utf8, valid_utf8};
use crate::file::byte_buffer::{
    buffer_bytes, buffer_plain, prefixed_fits, prefixed_payload, read_bytes, read_i32, read_string,
    read_u32, read_u64, string_bytes,
};
use crate::file::codec::{
    be_u32, be_u64, i32_bits, i32_of_bits, overwrite, u32_be_bytes, u64_be_bytes, zeros,
};

verus! {

/// Whether a well-formed string, length and UTF-8 bytes, lies at `at` in `bytes`.
pub open spec fn has_string(bytes: Seq<u8>, at: int) -> bool {
    prefixed_fits(bytes, at) && valid_utf8(prefixed_payload(bytes, at))
}

/// The string encoded at `at` in `bytes`.
pub open spec fn string_at(bytes: Seq<u8>, at: int) -> Seq<char> {
    decode_utf8(prefixed_payload(bytes, at))
}

/// Whether a 64-bit length lies at `at` in `bytes` and as many bytes, counted from
/// `at`, lie within `bytes`.
pub open spec fn run_fits(bytes: Seq<u8>, at: int) -> bool {
    &&& 0 <= at
    &&& at + 8 <= bytes.len()
    &&& at + be_u64(bytes.subrange(at, at + 8)) <= bytes.len()
}

/// The in-memory image of one block: a run of bytes of fixed length, read and
/// written at byte offsets.
pub struct Page {
    buffer: ByteBuffer,
}

impl View for Page {
    type V = Seq<u8>;

    closed spec fn view(&self) -> Seq<u8> {
        buffer_bytes(self.buffer)
    }
}

impl Clone for Page {
    fn clone(&self) -> (res: Self)
        ensures
            res@ == self@,
            res.wf() == self.wf(),
    {
        Page { buffer: self.buffer.clone() }
    }
}

impl Page {
    /// Whether the buffer behind the page is in the state that the accessors rely
    /// on. Every page that this library hands out is.
    pub closed spec fn wf(&self) -> bool {
        buffer_plain(self.buffer)
    }

    /// A page of `block_size` zero bytes.
    pub fn new(block_size: u64) -> (page: Self)
        requires
            block_size <= usize::MAX,
        ensures
            page@ == zeros(block_size as nat),
            page.wf(),
    {
        let mut buffer = ByteBuffer::new();
        buffer.resize(block_size as usize);
        assert(buffer_bytes(buffer) =~= zeros(block_size as nat));
        Page { buffer }
    }

    /// A page that holds a copy of the bytes of `buffer`.
    pub fn new_from_buffer(buffer: &ByteBuffer) -> (page: Self)
        ensures
            page@ == buffer_bytes(*buffer),
            page.wf(),
    {
        Page { buffer: ByteBuffer::from_bytes(buffer.as_bytes()) }
    }

    /// A page that holds a copy of `bytes`.
    pub fn from_bytes(bytes: &[u8]) -> (page: Self)
        ensures
            page@ == bytes@,
            page.wf(),
    {
        Page { buffer: ByteBuffer::from_bytes(bytes) }
    }

    /// Replaces the bytes of the page by those of `buf`.
    pub fn set_buffer(&mut self, buf: ByteBuffer)
        ensures
            final(self)@ == buffer_bytes(buf),
            final(self).wf(),
    {
        self.buffer = ByteBuffer::from_bytes(buf.as_bytes());
    }

    /// The number of bytes in the page.
    pub fn len(&self) -> (n: usize)
        ensures
            n == self@.len(),
    {
        self.buffer.len()
    }

    /// The buffer behind the page.
    pub fn contents(&self) -> (buffer: &ByteBuffer)
        ensures
            buffer_bytes(*buffer) == self@,
    {
        &self.buffer
    }

    /// A copy of the bytes of the page.
    pub fn to_bytes(&self) -> (bytes: Vec<u8>)
        ensures
            bytes@ == self@,
    {
        slice_to_vec(self.buffer.as_bytes())
    }

    /// The run of bytes that starts at `offset` and is as long as the 64-bit number
    /// found there says.
    pub fn get_bytes(&mut self, offset: usize) -> (bytes: Vec<u8>)
        requires
            old(self).wf(),
            run_fits(old(self)@, offset as int),
        ensures
            final(self).wf(),
            final(self)@ == old(self)@,
            bytes@ == old(self)@.subrange(
                offset as int,
                offset + be_u64(old(self)@.subrange(offset as int, offset + 8)),
            ),
    {
        let total = self.buffer.len();
        self.buffer.set_rpos(offset);
        let length = match read_u64(&mut self.buffer) {
            Some(n) => n,
            None => 0,
        };
        assert(length <= total);
        self.buffer.set_rpos(offset);
        match read_bytes(&mut self.buffer, length as usize) {
            Some(bytes) => bytes,
            None => Vec::new(),
        }
    }

    /// The bytes of the log record at `offset`: those that follow its 32-bit length.
    pub fn get_log_bytes(&mut self, offset: usize) -> (bytes: Vec<u8>)
        requires
            old(self).wf(),
            prefixed_fits(old(self)@, offset as int),
        ensures
            final(self).wf(),
            final(self)@ == old(self)@,
            bytes@ == prefixed_payload(old(self)@, offset as int),
    {
        self.buffer.set_rpos(offset);
        let length = match read_u32(&mut self.buffer) {
            Some(n) => n,
            None => 0,
        };
        match read_bytes(&mut self.buffer, length as usize) {
            Some(bytes) => bytes,
            None => Vec::new(),
        }
    }

    /// The unsigned 64-bit number at `offset`.
    pub fn get_u64(&mut self, offset: usize) -> (n: u64)
        requires
            old(self).wf(),
            offset + 8 <= old(self)@.len(),
        ensures
            final(self).wf(),
            final(self)@ == old(self)@,
            n == be_u64(old(self)@.subrange(offset as int, offset + 8)),
    {
        self.buffer.set_rpos(offset);
        match read_u64(&mut self.buffer) {
            Some(n) => n,
            None => 0,
        }
    }

    /// The unsigned 32-bit number at `offset`.
    pub fn get_u32(&mut self, offset: usize) -> (n: u32)
        requires
            old(self).wf(),
            offset + 4 <= old(self)@.len(),
        ensures
            final(self).wf(),
            final(self)@ == old(self)@,
            n == be_u32(old(self)@.subrange(offset as int, offset + 4)),
    {
        self.buffer.set_rpos(offset);
        match read_u32(&mut self.buffer) {
            Some(n) => n,
            None => 0,
        }
    }

    /// The signed 32-bit number at `offset`.
    pub fn get_i32(&mut self, offset: usize) -> (n: i32)
        requires
            old(self).wf(),
            offset + 4 <= old(self)@.len(),
        ensures
            final(self).wf(),
            final(self)@ == old(self)@,
            n == i32_of_bits(be_u32(old(self)@.subrange(offset as int, offset + 4))),
    {
        self.buffer.set_rpos(offset);
        match read_i32(&mut self.buffer) {
            Some(n) => n,
            None => 0,
        }
    }

    /// The string at `offset`, where a well-formed one lies there.
    pub fn try_get_string(&mut self, offset: usize) -> (r: Option<String>)
        requires
            old(self).wf(),
        ensures
            final(self).wf(),
            final(self)@ == old(self)@,
            r is Some <==> has_string(old(self)@, offset as int),
            r matches Some(s) ==> s@ == string_at(old(self)@, offset as int),
    {
        let len = self.buffer.len();
        if offset > len || len - offset < 4 {
            return None;
        }
        self.buffer.set_rpos(offset);
        let length = match read_u32(&mut self.buffer) {
            Some(n) => n,
            None => 0,
        };
        if length as u64 > (len - offset - 4) as u64 {
            return None;
        }
        self.buffer.set_rpos(offset);
        read_string(&mut self.buffer)
    }

    /// The string at `offset`.
    pub fn get_string(&mut self, offset: usize) -> (s: String)
        requires
            old(self).wf(),
            has_string(old(self)@, offset as int),
        ensures
            final(self).wf(),
            final(self)@ == old(self)@,
            s@ == string_at(old(self)@, offset as int),
    {
        match self.try_get_string(offset) {
            Some(s) => s,
            None => String::new(),
        }
    }

    /// Writes `buffer` at `offset`.
    pub fn set_bytes(&mut self, offset: usize, buffer: Vec<u8>)
        requires
            old(self).wf(),
            offset + buffer@.len() <= old(self)@.len(),
        ensures
            final(self).wf(),
            final(self)@ == overwrite(old(self)@, offset as int, buffer@),
    {
        self.buffer.set_wpos(offset);
        self.buffer.write_bytes(buffer.as_slice());
    }

    /// Writes the unsigned 64-bit number `n` at `offset`.
    pub fn set_u64(&mut self, offset: usize, n: u64)
        requires
            old(self).wf(),
            offset + 8 <= old(self)@.len(),
        ensures
            final(self).wf(),
            final(self)@ == overwrite(old(self)@, offset as int, u64_be_bytes(n)),
    {
        self.buffer.set_wpos(offset);
        self.buffer.write_u64(n);
    }

    /// Writes the unsigned 32-bit number `n` at `offset`.
    pub fn set_u32(&mut self, offset: usize, n: u32)
        requires
            old(self).wf(),
            offset + 4 <= old(self)@.len(),
        ensures
            final(self).wf(),
            final(self)@ == overwrite(old(self)@, offset as int, u32_be_bytes(n)),
    {
        self.buffer.set_wpos(offset);
        self.buffer.write_u32(n);
    }

    /// Writes the signed 32-bit number `n` at `offset`.
    pub fn set_i32(&mut self, offset: usize, n: i32)
        requires
            old(self).wf(),
            offset + 4 <= old(self)@.len(),
        ensures
            final(self).wf(),
            final(self)@ == overwrite(old(self)@, offset as int, u32_be_bytes(i32_bits(n))),
    {
        self.buffer.set_wpos(offset);
        self.buffer.write_i32(n);
    }

    /// Writes the string `s` at `offset`: its length in bytes, then its UTF-8 bytes.
    pub fn set_string(&mut self, offset: usize, s: String)
        requires
            old(self).wf(),
            offset + 4 + encode_utf8(s@).len() <= old(self)@.len(),
            encode_utf8(s@).len() <= u32::MAX,
        ensures
            final(self).wf(),
            final(self)@ == overwrite(old(self)@, offset as int, string_bytes(s@)),
    {
        self.buffer.set_wpos(offset);
        self.buffer.write_string(s.as_str());
    }

    /// The most bytes that the encoding of a string of `str_len` bytes takes.
    pub fn max_length(&self, str_len: usize) -> (n: usize)
        requires
            4 + str_len <= usize::MAX,
        ensures
            n == 4 + str_len,
    {
        4 + str_len
    }
}

} // verus!
