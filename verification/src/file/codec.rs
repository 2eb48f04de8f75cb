use vstd::prelude::*;

verus! {

/// The unsigned 32-bit number that four bytes hold, most significant byte first.
#[verifier::opaque]
pub open spec fn be_u32(s: Seq<u8>) -> u32
    recommends
        s.len() == 4,
{
    (s[0] as int * 0x100_0000 + s[1] as int * 0x1_0000 + s[2] as int * 0x100 + s[3] as int) as u32
}

/// The four bytes of an unsigned 32-bit number, most significant byte first.
#[verifier::opaque]
pub open spec fn u32_be_bytes(n: u32) -> Seq<u8> {
    seq![
        (n / 0x100_0000) as u8,
        (n / 0x1_0000 % 0x100) as u8,
        (n / 0x100 % 0x100) as u8,
        (n % 0x100) as u8,
    ]
}

/// The unsigned 64-bit number that eight bytes hold, most significant byte first.
#[verifier::opaque]
pub open spec fn be_u64(s: Seq<u8>) -> u64
    recommends
        s.len() == 8,
{
    (be_u32(s.subrange(0, 4)) as int * 0x1_0000_0000 + be_u32(s.subrange(4, 8)) as int) as u64
}

/// The eight bytes of an unsigned 64-bit number, most significant byte first.
#[verifier::opaque]
pub open spec fn u64_be_bytes(n: u64) -> Seq<u8> {
    u32_be_bytes((n / 0x1_0000_0000) as u32) + u32_be_bytes((n % 0x1_0000_0000) as u32)
}

/// The two's complement bit pattern of a signed 32-bit number.
pub open spec fn i32_bits(n: i32) -> u32 {
    if n >= 0 {
        n as u32
    } else {
        (n + 0x1_0000_0000) as u32
    }
}

/// The signed 32-bit number with a given two's complement bit pattern.
pub open spec fn i32_of_bits(u: u32) -> i32 {
    if u < 0x8000_0000 {
        u as i32
    } else {
        (u - 0x1_0000_0000) as i32
    }
}

/// `s` with the bytes from `at` on overwritten by `bytes`; the length stays.
pub open spec fn overwrite(s: Seq<u8>, at: int, bytes: Seq<u8>) -> Seq<u8>
    recommends
        0 <= at,
        at + bytes.len() <= s.len(),
{
    s.subrange(0, at) + bytes + s.subrange(at + bytes.len(), s.len() as int)
}

/// A sequence of `n` zero bytes.
pub open spec fn zeros(n: nat) -> Seq<u8> {
    Seq::new(n, |i: int| 0u8)
}

/// The bytes of a 32-bit number are four, and hold the number.
pub proof fn lemma_u32_round_trip(n: u32)
    ensures
        u32_be_bytes(n).len() == 4,
        be_u32(u32_be_bytes(n)) == n,
{
    reveal(be_u32);
    reveal(u32_be_bytes);
}

/// The bytes of a 64-bit number are eight, and hold the number.
pub proof fn lemma_u64_round_trip(n: u64)
    ensures
        u64_be_bytes(n).len() == 8,
        be_u64(u64_be_bytes(n)) == n,
{
    reveal(be_u64);
    reveal(u64_be_bytes);
    let hi = (n / 0x1_0000_0000) as u32;
    let lo = (n % 0x1_0000_0000) as u32;
    lemma_u32_round_trip(hi);
    lemma_u32_round_trip(lo);
    assert(u64_be_bytes(n).subrange(0, 4) =~= u32_be_bytes(hi));
    assert(u64_be_bytes(n).subrange(4, 8) =~= u32_be_bytes(lo));
}

/// Four bytes are the bytes of the number that they hold.
pub proof fn lemma_u32_bytes_round_trip(s: Seq<u8>)
    requires
        s.len() == 4,
    ensures
        u32_be_bytes(be_u32(s)) == s,
{
    reveal(be_u32);
    reveal(u32_be_bytes);
    let a = s[0] as int;
    let b = s[1] as int;
    let c = s[2] as int;
    let d = s[3] as int;
    let n = a * 0x100_0000 + b * 0x1_0000 + c * 0x100 + d;
    assert(be_u32(s) == n);
    assert(n == 0x100 * (a * 0x1_0000 + b * 0x100 + c) + d);
    assert(n % 0x100 == d);
    assert(n / 0x100 == a * 0x1_0000 + b * 0x100 + c);
    assert(n / 0x100 % 0x100 == c);
    assert(n == 0x1_0000 * (a * 0x100 + b) + (c * 0x100 + d));
    assert(n / 0x1_0000 == a * 0x100 + b);
    assert(n / 0x1_0000 % 0x100 == b);
    assert(n == 0x100_0000 * a + (b * 0x1_0000 + c * 0x100 + d));
    assert(n / 0x100_0000 == a);
    assert(u32_be_bytes(be_u32(s)) =~= s);
}

/// Eight bytes are the bytes of the number that they hold.
pub proof fn lemma_u64_bytes_round_trip(s: Seq<u8>)
    requires
        s.len() == 8,
    ensures
        u64_be_bytes(be_u64(s)) == s,
{
    reveal(be_u64);
    reveal(u64_be_bytes);
    let hi = s.subrange(0, 4);
    let lo = s.subrange(4, 8);
    lemma_u32_bytes_round_trip(hi);
    lemma_u32_bytes_round_trip(lo);
    let n = be_u64(s);
    assert((n / 0x1_0000_0000) as u32 == be_u32(hi));
    assert((n % 0x1_0000_0000) as u32 == be_u32(lo));
    assert(hi + lo =~= s);
}

/// The bit pattern of a signed number is that of the number.
pub proof fn lemma_i32_round_trip(n: i32)
    ensures
        i32_of_bits(i32_bits(n)) == n,
{
}

/// Reading back what `overwrite` wrote, and what it left alone.
pub proof fn lemma_overwrite(s: Seq<u8>, at: int, bytes: Seq<u8>)
    requires
        0 <= at,
        at + bytes.len() <= s.len(),
    ensures
        overwrite(s, at, bytes).len() == s.len(),
        overwrite(s, at, bytes).subrange(at, at + bytes.len()) == bytes,
        forall|i: int|
            0 <= i < s.len() && !(at <= i < at + bytes.len()) ==> #[trigger] overwrite(
                s,
                at,
                bytes,
            )[i] == s[i],
        forall|i: int| at <= i < at + bytes.len() ==> #[trigger] overwrite(s, at, bytes)[i] == bytes[i - at],
{
    assert(overwrite(s, at, bytes).subrange(at, at + bytes.len()) =~= bytes);
}

} // verus!
