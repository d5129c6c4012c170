//! Reading and writing the little-endian fields that account records are made of.

use crate::error::AccountError;
use vstd::prelude::*;

verus! {

/// How many bytes the type tag takes at the head of every account.
pub const TAG_LEN: usize = 8;

/// The number that four bytes spell, least significant byte first.
pub open spec fn le_u32(s: Seq<u8>) -> u32
    recommends
        s.len() == 4,
{
    (s[0] as int + 0x100 * (s[1] as int) + 0x1_0000 * (s[2] as int) + 0x100_0000 * (
    s[3] as int)) as u32
}

/// The number that eight bytes spell, least significant byte first.
pub open spec fn le_u64(s: Seq<u8>) -> u64
    recommends
        s.len() == 8,
{
    (le_u32(s.subrange(0, 4)) as int + 0x1_0000_0000 * (le_u32(s.subrange(4, 8)) as int)) as u64
}

/// The signed number whose two's complement form is `u`.
pub open spec fn signed(u: u64) -> i64 {
    if u < 0x8000_0000_0000_0000 {
        u as i64
    } else {
        (u as int - 0x1_0000_0000_0000_0000) as i64
    }
}

/// The signed number that eight bytes spell in two's complement, least
/// significant byte first.
pub open spec fn le_i64(s: Seq<u8>) -> i64
    recommends
        s.len() == 8,
{
    signed(le_u64(s))
}

/// The four bytes that spell `v`, least significant byte first.
pub open spec fn u32_le(v: u32) -> Seq<u8> {
    seq![
        (v % 0x100) as u8,
        (v / 0x100 % 0x100) as u8,
        (v / 0x1_0000 % 0x100) as u8,
        (v / 0x100_0000) as u8,
    ]
}

/// The eight bytes that spell `v`, least significant byte first.
pub open spec fn u64_le(v: u64) -> Seq<u8> {
    u32_le((v % 0x1_0000_0000) as u32) + u32_le((v / 0x1_0000_0000) as u32)
}

/// The two's complement form of `v`.
pub open spec fn unsigned(v: i64) -> u64 {
    if v >= 0 {
        v as u64
    } else {
        (v as int + 0x1_0000_0000_0000_0000) as u64
    }
}

/// The eight bytes that spell `v` in two's complement, least significant
/// byte first.
pub open spec fn i64_le(v: i64) -> Seq<u8> {
    u64_le(unsigned(v))
}

/// The byte that a flag is written as.
pub open spec fn flag_byte(flag: bool) -> u8 {
    if flag {
        1
    } else {
        0
    }
}

/// Four digits to the base 256 are found again in the number they make.
proof fn lemma_digits_of_sum(b0: int, b1: int, b2: int, b3: int)
    requires
        0 <= b0 < 0x100,
        0 <= b1 < 0x100,
        0 <= b2 < 0x100,
        0 <= b3 < 0x100,
    ensures
        ({
            let v = b0 + 0x100 * b1 + 0x1_0000 * b2 + 0x100_0000 * b3;
            &&& 0 <= v < 0x1_0000_0000
            &&& v % 0x100 == b0
            &&& v / 0x100 % 0x100 == b1
            &&& v / 0x1_0000 % 0x100 == b2
            &&& v / 0x100_0000 == b3
        }),
{
    let v = b0 + 0x100 * b1 + 0x1_0000 * b2 + 0x100_0000 * b3;
    let v1 = b1 + 0x100 * b2 + 0x1_0000 * b3;
    let v2 = b2 + 0x100 * b3;
    assert(v == b0 + 0x100 * v1);
    assert(v / 0x100 == v1);
    assert(v1 == b1 + 0x100 * v2);
    assert(v1 / 0x100 == v2);
    assert(v / 0x1_0000 == v2) by {
        assert(v == (b0 + 0x100 * b1) + 0x1_0000 * v2);
    }
    assert(v / 0x100_0000 == b3) by {
        assert(v == (b0 + 0x100 * b1 + 0x1_0000 * b2) + 0x100_0000 * b3);
    }
}

/// A number below 2^32 is the sum of its four digits to the base 256.
proof fn lemma_sum_of_digits(v: int)
    requires
        0 <= v < 0x1_0000_0000,
    ensures
        v == v % 0x100 + 0x100 * (v / 0x100 % 0x100) + 0x1_0000 * (v / 0x1_0000 % 0x100)
            + 0x100_0000 * (v / 0x100_0000),
        0 <= v / 0x100_0000 < 0x100,
{
    let v1 = v / 0x100;
    let v2 = v1 / 0x100;
    let v3 = v2 / 0x100;
    assert(v == v % 0x100 + 0x100 * v1);
    assert(v1 == v1 % 0x100 + 0x100 * v2);
    assert(v2 == v2 % 0x100 + 0x100 * v3);
    assert(v2 == v / 0x1_0000);
    assert(v3 == v / 0x100_0000);
}

/// A `u32` that is written and read again is the number written.
pub proof fn lemma_u32_read_back(v: u32)
    ensures
        u32_le(v).len() == 4,
        le_u32(u32_le(v)) == v,
{
    lemma_sum_of_digits(v as int);
}

/// Four bytes that are read as a `u32` and written again are the bytes
/// read: no two runs of four bytes spell the same number.
pub proof fn lemma_u32_written_back(s: Seq<u8>)
    requires
        s.len() == 4,
    ensures
        u32_le(le_u32(s)) == s,
{
    lemma_digits_of_sum(s[0] as int, s[1] as int, s[2] as int, s[3] as int);
    assert(u32_le(le_u32(s)) =~= s);
}

/// Two halves below 2^32 are found again in the number they make.
proof fn lemma_halves_of_sum(low: int, high: int)
    requires
        0 <= low < 0x1_0000_0000,
        0 <= high < 0x1_0000_0000,
    ensures
        0 <= low + 0x1_0000_0000 * high < 0x1_0000_0000_0000_0000,
        (low + 0x1_0000_0000 * high) % 0x1_0000_0000 == low,
        (low + 0x1_0000_0000 * high) / 0x1_0000_0000 == high,
{
}

/// Two runs of four bytes are found again in the run they make.
proof fn lemma_parts_of_eight(a: Seq<u8>, b: Seq<u8>)
    requires
        a.len() == 4,
        b.len() == 4,
    ensures
        (a + b).len() == 8,
        (a + b).subrange(0, 4) == a,
        (a + b).subrange(4, 8) == b,
{
    assert((a + b).subrange(0, 4) =~= a);
    assert((a + b).subrange(4, 8) =~= b);
}

/// A `u64` that is written and read again is the number written.
pub proof fn lemma_u64_read_back(v: u64)
    ensures
        u64_le(v).len() == 8,
        le_u64(u64_le(v)) == v,
{
    let low = (v % 0x1_0000_0000) as u32;
    let high = (v / 0x1_0000_0000) as u32;
    lemma_u32_read_back(low);
    lemma_u32_read_back(high);
    lemma_parts_of_eight(u32_le(low), u32_le(high));
    assert(v == low + 0x1_0000_0000 * high);
}

/// Eight bytes that are read as a `u64` and written again are the bytes
/// read.
pub proof fn lemma_u64_written_back(s: Seq<u8>)
    requires
        s.len() == 8,
    ensures
        u64_le(le_u64(s)) == s,
{
    let a = s.subrange(0, 4);
    let b = s.subrange(4, 8);
    lemma_u32_written_back(a);
    lemma_u32_written_back(b);
    lemma_halves_of_sum(le_u32(a) as int, le_u32(b) as int);
    assert(a + b =~= s);
}

/// An `i64` that is written and read again is the number written.
pub proof fn lemma_i64_read_back(v: i64)
    ensures
        i64_le(v).len() == 8,
        le_i64(i64_le(v)) == v,
{
    lemma_u64_read_back(unsigned(v));
}

/// Eight bytes that are read as an `i64` and written again are the bytes
/// read.
pub proof fn lemma_i64_written_back(s: Seq<u8>)
    requires
        s.len() == 8,
    ensures
        i64_le(le_i64(s)) == s,
{
    lemma_u64_written_back(s);
}

/// Reads the `u32` that starts at byte `at` of `data`.
pub fn read_u32(data: &[u8], at: usize) -> (v: u32)
    requires
        at + 4 <= data.len(),
    ensures
        v == le_u32(data@.subrange(at as int, at + 4)),
{
    let b0: u32 = data[at] as u32;
    let b1: u32 = data[at + 1] as u32;
    let b2: u32 = data[at + 2] as u32;
    let b3: u32 = data[at + 3] as u32;
    b0 + 0x100 * b1 + 0x1_0000 * b2 + 0x100_0000 * b3
}

/// Reads the `u64` that starts at byte `at` of `data`.
pub fn read_u64(data: &[u8], at: usize) -> (v: u64)
    requires
        at + 8 <= data.len(),
    ensures
        v == le_u64(data@.subrange(at as int, at + 8)),
{
    let low: u64 = read_u32(data, at) as u64;
    let high: u64 = read_u32(data, at + 4) as u64;
    proof {
        let s = data@.subrange(at as int, at + 8);
        assert(s.subrange(0, 4) =~= data@.subrange(at as int, at + 4));
        assert(s.subrange(4, 8) =~= data@.subrange(at + 4, at + 8));
    }
    low + 0x1_0000_0000 * high
}

/// Reads the `i64` that starts at byte `at` of `data`.
pub fn read_i64(data: &[u8], at: usize) -> (v: i64)
    requires
        at + 8 <= data.len(),
    ensures
        v == le_i64(data@.subrange(at as int, at + 8)),
{
    let u: u64 = read_u64(data, at);
    if u < 0x8000_0000_0000_0000 {
        u as i64
    } else {
        ((u - 0x8000_0000_0000_0000) as i64) + i64::MIN
    }
}

/// Tells whether two runs of bytes are the same: equally long, and equal
/// byte for byte.
pub fn same_bytes(a: &[u8], b: &[u8]) -> (same: bool)
    ensures
        same == (a@ == b@),
{
    if a.len() != b.len() {
        return false;
    }
    let mut i: usize = 0;
    while i < a.len()
        invariant
            i <= a.len(),
            a.len() == b.len(),
            a@.subrange(0, i as int) == b@.subrange(0, i as int),
        decreases a.len() - i,
    {
        if a[i] != b[i] {
            return false;
        }
        proof {
            assert(a@.subrange(0, i + 1) =~= a@.subrange(0, i as int).push(a@[i as int]));
            assert(b@.subrange(0, i + 1) =~= b@.subrange(0, i as int).push(b@[i as int]));
        }
        i = i + 1;
    }
    proof {
        assert(a@ =~= a@.subrange(0, i as int));
        assert(b@ =~= b@.subrange(0, i as int));
    }
    true
}

/// Checks that `data` starts with `tag`, and hands out what stands behind
/// it.
pub fn strip_tag<'a>(data: &'a [u8], tag: &[u8; 8]) -> (res: Result<&'a [u8], AccountError>)
    ensures
        match res {
            Ok(body) => {
                &&& data@.len() >= TAG_LEN
                &&& data@.subrange(0, TAG_LEN as int) == tag@
                &&& body@ == data@.skip(TAG_LEN as int)
            },
            Err(e) => if data@.len() < TAG_LEN {
                e == AccountError::AccountTooShort
            } else {
                &&& data@.subrange(0, TAG_LEN as int) != tag@
                &&& e == AccountError::DiscriminatorMismatch
            },
        },
{
    if data.len() < TAG_LEN {
        return Err(AccountError::AccountTooShort);
    }
    if !same_bytes(vstd::slice::slice_subrange(data, 0, TAG_LEN), tag.as_slice()) {
        return Err(AccountError::DiscriminatorMismatch);
    }
    let body = vstd::slice::slice_subrange(data, TAG_LEN, data.len());
    proof {
        assert(body@ =~= data@.skip(TAG_LEN as int));
    }
    Ok(body)
}

/// Hands `bytes` out as an array of `N` bytes.
///
/// The call is `bytemuck::from_bytes`, which reinterprets a slice in place
/// as a value of the type asked for and panics unless the slice has exactly
/// that type's size and is aligned for it. An array of bytes has alignment
/// one, so the length is all that is asked of the caller. The contract
/// claims, without proof, that the array holds the bytes of the slice in
/// their order.
#[verifier::external_body]
fn array_from_bytes<const N: usize>(bytes: &[u8]) -> (out: &[u8; N])
    requires
        bytes.len() == N,
    ensures
        out@ == bytes@,
{
    bytemuck::from_bytes(bytes)
}

/// Reads the `N` bytes that start at byte `at` of `data`.
pub fn read_array<const N: usize>(data: &[u8], at: usize) -> (out: [u8; N])
    requires
        at + N <= data.len(),
    ensures
        out@ == data@.subrange(at as int, at + N),
{
    *array_from_bytes::<N>(vstd::slice::slice_subrange(data, at, at + N))
}

/// Reads `M` rows of `N` bytes each, laid out one after the other from
/// byte `at` of `data`.
pub fn read_rows<const N: usize, const M: usize>(data: &[u8], at: usize) -> (rows: [[u8; N]; M])
    requires
        at + N * M <= data.len(),
    ensures
        forall|i: int|
            0 <= i < M ==> (#[trigger] rows@[i])@ == data@.subrange(at + N * i, at + N * i + N),
{
    let mut rows: [[u8; N]; M] = [[0u8; N]; M];
    let mut i: usize = 0;
    while i < M
        invariant
            i <= M,
            at + N * M <= data.len(),
            forall|k: int|
                0 <= k < i ==> (#[trigger] rows@[k])@ == data@.subrange(
                    at + N * k,
                    at + N * k + N,
                ),
        decreases M - i,
    {
        proof {
            assert(N * i + N <= N * M) by (nonlinear_arith)
                requires
                    i < M,
            ;
        }
        rows[i] = read_array::<N>(data, at + N * i);
        i = i + 1;
    }
    rows
}

/// Takes a `u32` off the front of `reader`. A reader with fewer than four
/// bytes is left as it is.
pub fn take_u32(reader: &mut &[u8]) -> (res: Result<u32, AccountError>)
    ensures
        match res {
            Ok(v) => {
                &&& old(reader)@.len() >= 4
                &&& v == le_u32(old(reader)@.take(4))
                &&& final(reader)@ == old(reader)@.skip(4)
            },
            Err(e) => {
                &&& old(reader)@.len() < 4
                &&& e == AccountError::ReadExhausted
                &&& final(reader)@ == old(reader)@
            },
        },
{
    let input: &[u8] = *reader;
    if input.len() < 4 {
        return Err(AccountError::ReadExhausted);
    }
    let v = read_u32(input, 0);
    *reader = vstd::slice::slice_subrange(input, 4, input.len());
    proof {
        assert(input@.take(4) =~= input@.subrange(0, 4));
        assert(input@.skip(4) =~= input@.subrange(4, input@.len() as int));
    }
    Ok(v)
}

/// Takes a `u64` off the front of `reader`. A reader with fewer than eight
/// bytes is left as it is.
pub fn take_u64(reader: &mut &[u8]) -> (res: Result<u64, AccountError>)
    ensures
        match res {
            Ok(v) => {
                &&& old(reader)@.len() >= 8
                &&& v == le_u64(old(reader)@.take(8))
                &&& final(reader)@ == old(reader)@.skip(8)
            },
            Err(e) => {
                &&& old(reader)@.len() < 8
                &&& e == AccountError::ReadExhausted
                &&& final(reader)@ == old(reader)@
            },
        },
{
    let input: &[u8] = *reader;
    if input.len() < 8 {
        return Err(AccountError::ReadExhausted);
    }
    let v = read_u64(input, 0);
    *reader = vstd::slice::slice_subrange(input, 8, input.len());
    proof {
        assert(input@.take(8) =~= input@.subrange(0, 8));
        assert(input@.skip(8) =~= input@.subrange(8, input@.len() as int));
    }
    Ok(v)
}

/// Takes an `i64` off the front of `reader`. A reader with fewer than eight
/// bytes is left as it is.
pub fn take_i64(reader: &mut &[u8]) -> (res: Result<i64, AccountError>)
    ensures
        match res {
            Ok(v) => {
                &&& old(reader)@.len() >= 8
                &&& v == le_i64(old(reader)@.take(8))
                &&& final(reader)@ == old(reader)@.skip(8)
            },
            Err(e) => {
                &&& old(reader)@.len() < 8
                &&& e == AccountError::ReadExhausted
                &&& final(reader)@ == old(reader)@
            },
        },
{
    let input: &[u8] = *reader;
    if input.len() < 8 {
        return Err(AccountError::ReadExhausted);
    }
    let v = read_i64(input, 0);
    *reader = vstd::slice::slice_subrange(input, 8, input.len());
    proof {
        assert(input@.take(8) =~= input@.subrange(0, 8));
        assert(input@.skip(8) =~= input@.subrange(8, input@.len() as int));
    }
    Ok(v)
}

/// Takes `N` bytes off the front of `reader`. A reader with fewer bytes is
/// left as it is.
pub fn take_array<const N: usize>(reader: &mut &[u8]) -> (res: Result<[u8; N], AccountError>)
    ensures
        match res {
            Ok(bytes) => {
                &&& old(reader)@.len() >= N
                &&& bytes@ == old(reader)@.take(N as int)
                &&& final(reader)@ == old(reader)@.skip(N as int)
            },
            Err(e) => {
                &&& old(reader)@.len() < N
                &&& e == AccountError::ReadExhausted
                &&& final(reader)@ == old(reader)@
            },
        },
{
    let input: &[u8] = *reader;
    if input.len() < N {
        return Err(AccountError::ReadExhausted);
    }
    let bytes = read_array::<N>(input, 0);
    *reader = vstd::slice::slice_subrange(input, N, input.len());
    proof {
        assert(input@.take(N as int) =~= input@.subrange(0, N as int));
        assert(input@.skip(N as int) =~= input@.subrange(N as int, input@.len() as int));
    }
    Ok(bytes)
}

/// Takes a flag off the front of `reader`: one byte, 0 for false and 1 for
/// true. An empty reader, or one that starts with another byte, is left as
/// it is.
pub fn take_flag(reader: &mut &[u8]) -> (res: Result<bool, AccountError>)
    ensures
        match res {
            Ok(flag) => {
                &&& old(reader)@.len() >= 1
                &&& old(reader)@[0] <= 1
                &&& flag == (old(reader)@[0] == 1)
                &&& final(reader)@ == old(reader)@.skip(1)
            },
            Err(e) => {
                &&& old(reader)@.len() < 1 || old(reader)@[0] > 1
                &&& e == AccountError::ReadExhausted
                &&& final(reader)@ == old(reader)@
            },
        },
{
    let input: &[u8] = *reader;
    if input.len() < 1 {
        return Err(AccountError::ReadExhausted);
    }
    let byte: u8 = input[0];
    if byte > 1 {
        return Err(AccountError::ReadExhausted);
    }
    *reader = vstd::slice::slice_subrange(input, 1, input.len());
    proof {
        assert(input@.skip(1) =~= input@.subrange(1, input@.len() as int));
    }
    Ok(byte == 1)
}

/// Takes a run of bytes off the front of `reader`: a `u32` that says how
/// many, then the bytes. A reader that ends before the run does is left as
/// it is.
pub fn take_prefixed(reader: &mut &[u8]) -> (res: Result<Vec<u8>, AccountError>)
    ensures
        match res {
            Ok(bytes) => {
                &&& old(reader)@.len() >= 4
                &&& old(reader)@.len() >= 4 + le_u32(old(reader)@.take(4))
                &&& bytes@ == old(reader)@.subrange(4, 4 + le_u32(old(reader)@.take(4)))
                &&& final(reader)@ == old(reader)@.skip(4 + le_u32(old(reader)@.take(4)))
            },
            Err(e) => {
                &&& old(reader)@.len() < 4 || old(reader)@.len() < 4 + le_u32(old(reader)@.take(4))
                &&& e == AccountError::ReadExhausted
                &&& final(reader)@ == old(reader)@
            },
        },
{
    let input: &[u8] = *reader;
    if input.len() < 4 {
        return Err(AccountError::ReadExhausted);
    }
    let count: u32 = read_u32(input, 0);
    proof {
        assert(input@.take(4) =~= input@.subrange(0, 4));
    }
    if ((input.len() - 4) as u64) < (count as u64) {
        return Err(AccountError::ReadExhausted);
    }
    let end: usize = 4 + (count as usize);
    let bytes = vstd::slice::slice_to_vec(vstd::slice::slice_subrange(input, 4, end));
    *reader = vstd::slice::slice_subrange(input, end, input.len());
    proof {
        assert(input@.skip(end as int) =~= input@.subrange(end as int, input@.len() as int));
    }
    Ok(bytes)
}

/// Appends `bytes` to `out`.
pub fn put_bytes(out: &mut Vec<u8>, bytes: &[u8])
    ensures
        final(out)@ == old(out)@ + bytes@,
{
    let mut i: usize = 0;
    while i < bytes.len()
        invariant
            i <= bytes.len(),
            out@ == old(out)@ + bytes@.subrange(0, i as int),
        decreases bytes.len() - i,
    {
        out.push(bytes[i]);
        proof {
            assert(bytes@.subrange(0, i + 1) =~= bytes@.subrange(0, i as int).push(
                bytes@[i as int],
            ));
            assert(out@ =~= old(out)@ + bytes@.subrange(0, i + 1));
        }
        i = i + 1;
    }
    proof {
        assert(bytes@.subrange(0, i as int) =~= bytes@);
    }
}

/// Appends the four bytes that spell `v` to `out`.
pub fn put_u32(out: &mut Vec<u8>, v: u32)
    ensures
        final(out)@ == old(out)@ + u32_le(v),
{
    out.push((v % 0x100) as u8);
    out.push((v / 0x100 % 0x100) as u8);
    out.push((v / 0x1_0000 % 0x100) as u8);
    out.push((v / 0x100_0000) as u8);
    proof {
        assert(out@ =~= old(out)@ + u32_le(v));
    }
}

/// Appends the eight bytes that spell `v` to `out`.
pub fn put_u64(out: &mut Vec<u8>, v: u64)
    ensures
        final(out)@ == old(out)@ + u64_le(v),
{
    put_u32(out, (v % 0x1_0000_0000) as u32);
    put_u32(out, (v / 0x1_0000_0000) as u32);
    proof {
        assert(out@ =~= old(out)@ + u64_le(v));
    }
}

/// Appends the eight bytes that spell `v` in two's complement to `out`.
pub fn put_i64(out: &mut Vec<u8>, v: i64)
    ensures
        final(out)@ == old(out)@ + i64_le(v),
{
    let u: u64 = if v >= 0 {
        v as u64
    } else {
        ((v - i64::MIN) as u64) + 0x8000_0000_0000_0000
    };
    put_u64(out, u);
}

} // verus!
