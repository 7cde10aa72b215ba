//! Integers as they stand in game files, and the mask that lies over the files.
use byteordered::byteorder::{ReadBytesExt, BE, LE};
use vstd::arithmetic::div_mod::*;
use vstd::prelude::*;

verus! {

/// Every byte of a game file is stored with this mask over it.
pub const NICE: u8 = 0x69;

/// `data` with `key` laid over every byte.
pub open spec fn masked(data: Seq<u8>, key: u8) -> Seq<u8> {
    Seq::new(data.len(), |i: int| data[i] ^ key)
}

/// Lays `key` over every byte of `data`.
pub fn unmask(data: &[u8], key: u8) -> (r: Vec<u8>)
    ensures
        r@ == masked(data@, key),
        r@.len() == data@.len(),
        forall|i: int| 0 <= i < data@.len() ==> #[trigger] r@[i] == data@[i] ^ key,
{
    let mut out: Vec<u8> = Vec::with_capacity(data.len());
    let mut i: usize = 0;
    while i < data.len()
        invariant
            i <= data.len(),
            out@.len() == i,
            forall|j: int| 0 <= j < i ==> out@[j] == data@[j] ^ key,
        decreases data.len() - i,
    {
        out.push(data[i] ^ key);
        i = i + 1;
    }
    out
}

/// Laying the same key over the data twice gives the data back.
pub proof fn law_mask_is_its_own_inverse(data: Seq<u8>, key: u8)
    ensures
        masked(masked(data, key), key) == data,
{
    assert forall|i: int| 0 <= i < data.len() implies (data[i] ^ key) ^ key == data[i] by {
        let b = data[i];
        assert((b ^ key) ^ key == b) by (bit_vector);
    }
    assert(masked(masked(data, key), key) =~= data);
}

/// The data of a file is as long as the file, and every byte of it is the file's byte with 0x69 laid
/// over it.
pub proof fn law_every_byte_is_unmasked(file: Seq<u8>)
    ensures
        masked(file, NICE).len() == file.len(),
        forall|i: int| 0 <= i < file.len() ==> #[trigger] masked(file, NICE)[i] == file[i] ^ 0x69u8,
{
}

/// The unsigned 16-bit number that stands at `at`, least significant byte first.
pub open spec fn le_u16(s: Seq<u8>, at: int) -> int {
    s[at] + 0x100 * s[at + 1]
}

/// The signed 16-bit number that stands at `at`, least significant byte first.
pub open spec fn le_i16(s: Seq<u8>, at: int) -> int {
    let n = le_u16(s, at);
    if n < 0x8000 {
        n
    } else {
        n - 0x1_0000
    }
}

/// The signed number whose four bytes, least significant first, are `b0` to `b3`.
pub open spec fn signed32(b0: u8, b1: u8, b2: u8, b3: u8) -> int {
    let n = b0 + 0x100 * b1 + 0x1_0000 * b2 + 0x100_0000 * b3;
    if n < 0x8000_0000 {
        n
    } else {
        n - 0x1_0000_0000
    }
}

/// The signed 32-bit number that stands at `at`, least significant byte first.
pub open spec fn le_i32(s: Seq<u8>, at: int) -> int {
    signed32(s[at], s[at + 1], s[at + 2], s[at + 3])
}

/// The signed 32-bit number that stands at `at`, most significant byte first.
pub open spec fn be_i32(s: Seq<u8>, at: int) -> int {
    signed32(s[at + 3], s[at + 2], s[at + 1], s[at])
}

/// A number is the sum of its bytes, each times its weight, up to a multiple of the range of its
/// type; and it lies in that range.
pub proof fn law_numbers_are_made_of_bytes(s: Seq<u8>, at: int)
    ensures
        le_u16(s, at) == s[at] + 256 * s[at + 1],
        -32768 <= le_i16(s, at) < 32768,
        (le_i16(s, at) - (s[at] + 256 * s[at + 1])) % 65536 == 0,
        -2147483648 <= le_i32(s, at) < 2147483648,
        (le_i32(s, at) - (s[at] + 256 * s[at + 1] + 65536 * s[at + 2] + 16777216 * s[at + 3]))
            % 4294967296 == 0,
        -2147483648 <= be_i32(s, at) < 2147483648,
        (be_i32(s, at) - (16777216 * s[at] + 65536 * s[at + 1] + 256 * s[at + 2] + s[at + 3]))
            % 4294967296 == 0,
{
}

/// The four bytes of a number, most significant first.
#[verifier::opaque]
pub open spec fn be_bytes(n: int) -> Seq<u8> {
    seq![
        (n / 0x100_0000 % 0x100) as u8,
        (n / 0x1_0000 % 0x100) as u8,
        (n / 0x100 % 0x100) as u8,
        (n % 0x100) as u8,
    ]
}

/// There are four of them.
pub broadcast proof fn lemma_be_bytes_len(n: int)
    ensures
        #[trigger] be_bytes(n).len() == 4,
{
    reveal(be_bytes);
}

/// The bytes of a number are found again by division.
pub proof fn lemma_number_parts(b0: int, b1: int, b2: int, b3: int)
    requires
        0 <= b0 < 0x100,
        0 <= b1 < 0x100,
        0 <= b2 < 0x100,
        0 <= b3 < 0x100,
    ensures
        ({
            let n = b3 + 0x100 * b2 + 0x1_0000 * b1 + 0x100_0000 * b0;
            &&& n / 0x100_0000 % 0x100 == b0
            &&& n / 0x1_0000 % 0x100 == b1
            &&& n / 0x100 % 0x100 == b2
            &&& n % 0x100 == b3
        }),
{
    let n = b3 + 0x100 * b2 + 0x1_0000 * b1 + 0x100_0000 * b0;
    assert(n / 0x100_0000 == b0);
    assert(n / 0x1_0000 == b1 + 0x100 * b0);
    assert(n / 0x100 == b2 + 0x100 * b1 + 0x1_0000 * b0);
}

/// A number is made up of the bytes that division finds.
pub proof fn lemma_number_from_parts(n: int)
    requires
        0 <= n < 0x1_0000_0000,
    ensures
        0 <= n / 0x100_0000 < 0x100,
        n == n % 0x100 + 0x100 * (n / 0x100 % 0x100) + 0x1_0000 * (n / 0x1_0000 % 0x100)
            + 0x100_0000 * (n / 0x100_0000),
{
    lemma_div_denominator(n, 0x100, 0x100);
    lemma_div_denominator(n, 0x1_0000, 0x100);
}

/// The failure of a read.
#[verifier::external_type_specification]
#[verifier::external_body]
pub struct ExIoError(std::io::Error);

/// `byteorder::ReadBytesExt::read_i16::<LE>` on a byte slice.
///
/// It takes two bytes off the front of `r` and gives their little-endian value; it fails if and
/// only if `r` holds fewer than two. What is left of `r` after a failure is not stated.
#[verifier::external_body]
pub(crate) fn read_i16_le(r: &mut &[u8]) -> (v: Result<i16, std::io::Error>)
    ensures
        v is Ok <==> old(r)@.len() >= 2,
        v matches Ok(n) ==> n == le_i16(old(r)@, 0) && final(r)@ == old(r)@.skip(2),
{
    r.read_i16::<LE>()
}

/// `byteorder::ReadBytesExt::read_i32::<BE>` on a byte slice.
///
/// It takes four bytes off the front of `r` and gives their big-endian value; it fails if and
/// only if `r` holds fewer than four. What is left of `r` after a failure is not stated.
#[verifier::external_body]
pub(crate) fn read_i32_be(r: &mut &[u8]) -> (v: Result<i32, std::io::Error>)
    ensures
        v is Ok <==> old(r)@.len() >= 4,
        v matches Ok(n) ==> n == be_i32(old(r)@, 0) && final(r)@ == old(r)@.skip(4),
{
    r.read_i32::<BE>()
}

/// `byteorder::ReadBytesExt::read_i32_into::<LE>` on a byte slice.
///
/// It takes four bytes off the front of `r` for each place in `dst` and puts their little-endian
/// values there, in order; it fails if and only if `r` holds too few bytes for that. The number of
/// places never changes. What `r` and the places hold after a failure is not stated.
#[verifier::external_body]
pub(crate) fn read_i32_into_le(r: &mut &[u8], dst: &mut Vec<i32>) -> (v: Result<
    (),
    std::io::Error,
>)
    ensures
        final(dst)@.len() == old(dst)@.len(),
        v is Ok <==> old(r)@.len() >= 4 * old(dst)@.len(),
        v is Ok ==> final(r)@ == old(r)@.skip(4 * old(dst)@.len() as int),
        v is Ok ==> forall|i: int|
            0 <= i < old(dst)@.len() ==> (#[trigger] final(dst)@[i]) == le_i32(old(r)@, 4 * i),
{
    r.read_i32_into::<LE>(dst)
}

/// Reads the unsigned 16-bit number that stands at `at`, least significant byte first.
pub fn u16_at(s: &[u8], at: usize) -> (r: u16)
    requires
        at + 2 <= s@.len(),
    ensures
        r == le_u16(s@, at as int),
{
    let low: u16 = s[at] as u16;
    let high: u16 = s[at + 1] as u16;
    low + 0x100 * high
}

/// Reads the signed 32-bit number that stands at `at`, least significant byte first.
pub fn i32_at(s: &[u8], at: usize) -> (r: i32)
    requires
        at + 4 <= s@.len(),
    ensures
        r == le_i32(s@, at as int),
{
    let n: i64 = s[at] as i64 + 0x100 * (s[at + 1] as i64) + 0x1_0000 * (s[at + 2] as i64)
        + 0x100_0000 * (s[at + 3] as i64);
    if n < 0x8000_0000 {
        n as i32
    } else {
        (n - 0x1_0000_0000) as i32
    }
}

} // verus!
