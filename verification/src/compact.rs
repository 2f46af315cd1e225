//! Little-endian integers and the variable-length size prefix of the wire
//! format.

use vstd::arithmetic::div_mod::{
    lemma_div_denominator, lemma_fundamental_div_mod, lemma_fundamental_div_mod_converse,
};
use vstd::prelude::*;
use crate::error::DecodeError;

verus! {

/// The number that the first two bytes of `s` spell, least significant first.
pub open spec fn le16(s: Seq<u8>) -> nat
    recommends
        s.len() >= 2,
{
    s[0] as nat + 256 * (s[1] as nat)
}

/// The number that the first four bytes of `s` spell, least significant first.
pub open spec fn le32(s: Seq<u8>) -> nat
    recommends
        s.len() >= 4,
{
    s[0] as nat + 256 * (s[1] as nat) + 65536 * (s[2] as nat) + 16777216 * (s[3] as nat)
}

/// The number that the first eight bytes of `s` spell, least significant first.
pub open spec fn le64(s: Seq<u8>) -> nat
    recommends
        s.len() >= 8,
{
    le32(s) + 4294967296 * le32(s.skip(4))
}

/// `n` in two bytes, least significant first.
pub open spec fn le16_bytes(n: nat) -> Seq<u8> {
    seq![(n % 256) as u8, (n / 256 % 256) as u8]
}

/// `n` in four bytes, least significant first.
pub open spec fn le32_bytes(n: nat) -> Seq<u8> {
    seq![
        (n % 256) as u8,
        (n / 256 % 256) as u8,
        (n / 65536 % 256) as u8,
        (n / 16777216 % 256) as u8,
    ]
}

/// `n` in eight bytes, least significant first.
pub open spec fn le64_bytes(n: nat) -> Seq<u8> {
    le32_bytes(n % 4294967296) + le32_bytes(n / 4294967296)
}

/// The digits of a number in base 256 are its remainders by 256 after
/// dividing by the powers of 256.
proof fn lemma_digits(n: nat, b0: nat, b1: nat, b2: nat, b3: nat)
    requires
        b0 < 256,
        b1 < 256,
        b2 < 256,
        b3 < 256,
        n == b0 + 256 * b1 + 65536 * b2 + 16777216 * b3,
    ensures
        n % 256 == b0,
        n / 256 % 256 == b1,
        n / 65536 % 256 == b2,
        n / 16777216 % 256 == b3,
        n < 4294967296,
{
    let n1 = b1 + 256 * b2 + 65536 * b3;
    let n2 = b2 + 256 * b3;
    lemma_fundamental_div_mod_converse(n as int, 256, n1 as int, b0 as int);
    lemma_fundamental_div_mod_converse(n1 as int, 256, n2 as int, b1 as int);
    lemma_fundamental_div_mod_converse(n as int, 65536, n2 as int, (b0 + 256 * b1) as int);
    lemma_fundamental_div_mod_converse(n2 as int, 256, b3 as int, b2 as int);
    lemma_fundamental_div_mod_converse(
        n as int,
        16777216,
        b3 as int,
        (b0 + 256 * b1 + 65536 * b2) as int,
    );
    lemma_fundamental_div_mod_converse(b3 as int, 256, 0, b3 as int);
}

/// A number below 2^32 is the sum of its four digits in base 256, each times
/// its power of 256.
proof fn lemma_split(n: nat)
    requires
        n < 4294967296,
    ensures
        n == n % 256 + 256 * (n / 256 % 256) + 65536 * (n / 65536 % 256) + 16777216 * (n / 16777216
            % 256),
        n < 65536 ==> n / 65536 % 256 == 0 && n / 16777216 % 256 == 0,
{
    let q1 = n / 256;
    let q2 = q1 / 256;
    let q3 = q2 / 256;
    lemma_fundamental_div_mod(n as int, 256);
    lemma_fundamental_div_mod(q1 as int, 256);
    lemma_fundamental_div_mod(q2 as int, 256);
    lemma_div_denominator(n as int, 256, 256);
    lemma_div_denominator(n as int, 65536, 256);
    assert(q2 == n / 65536);
    assert(q3 == n / 16777216);
    assert(q3 < 256);
    lemma_fundamental_div_mod_converse(q3 as int, 256, 0, q3 as int);
    if n < 65536 {
        lemma_fundamental_div_mod_converse(n as int, 65536, 0, n as int);
        lemma_fundamental_div_mod_converse(n as int, 16777216, 0, n as int);
    }
}

proof fn lemma_le16_round_trip(n: nat, rest: Seq<u8>)
    requires
        n < 65536,
    ensures
        le16(le16_bytes(n) + rest) == n,
        (le16_bytes(n) + rest).skip(2) == rest,
        le16_bytes(n).len() == 2,
{
    lemma_split(n);
    assert((le16_bytes(n) + rest).skip(2) =~= rest);
}

/// Four bytes that a number below 2^32 is written as spell that number.
pub proof fn lemma_le32_round_trip(n: nat, rest: Seq<u8>)
    requires
        n < 4294967296,
    ensures
        le32(le32_bytes(n) + rest) == n,
        (le32_bytes(n) + rest).skip(4) == rest,
        le32_bytes(n).len() == 4,
{
    lemma_split(n);
    assert((le32_bytes(n) + rest).skip(4) =~= rest);
}

/// Eight bytes that a number of 64 bits is written as spell that number.
pub proof fn lemma_le64_round_trip(n: nat, rest: Seq<u8>)
    requires
        n <= u64::MAX,
    ensures
        le64(le64_bytes(n) + rest) == n,
        (le64_bytes(n) + rest).skip(8) == rest,
        le64_bytes(n).len() == 8,
{
    let lo = n % 4294967296;
    let hi = n / 4294967296;
    lemma_fundamental_div_mod(n as int, 4294967296);
    let s = le64_bytes(n) + rest;
    assert(s =~= le32_bytes(lo) + (le32_bytes(hi) + rest));
    lemma_le32_round_trip(lo, le32_bytes(hi) + rest);
    lemma_le32_round_trip(hi, rest);
    assert(s.skip(4) == le32_bytes(hi) + rest);
    assert(s.skip(8) =~= rest);
}

/// Reads two bytes at `pos` as a number.
pub fn read_le16(bytes: &[u8], pos: usize) -> (r: u16)
    requires
        pos + 2 <= bytes.len(),
    ensures
        r == le16(bytes@.skip(pos as int)),
{
    let r: u16 = (bytes[pos] as u16) + 256 * (bytes[pos + 1] as u16);
    r
}

/// Reads four bytes at `pos` as a number.
pub fn read_le32(bytes: &[u8], pos: usize) -> (r: u32)
    requires
        pos + 4 <= bytes.len(),
    ensures
        r == le32(bytes@.skip(pos as int)),
{
    let r: u32 = (bytes[pos] as u32) + 256 * (bytes[pos + 1] as u32) + 65536 * (bytes[pos
        + 2] as u32) + 16777216 * (bytes[pos + 3] as u32);
    r
}

/// Reads eight bytes at `pos` as a number.
pub fn read_le64(bytes: &[u8], pos: usize) -> (r: u64)
    requires
        pos + 8 <= bytes.len(),
    ensures
        r == le64(bytes@.skip(pos as int)),
{
    let lo: u32 = read_le32(bytes, pos);
    let hi: u32 = read_le32(bytes, pos + 4);
    proof {
        assert(bytes@.skip(pos as int).skip(4) =~= bytes@.skip(pos as int + 4));
    }
    let r: u64 = (lo as u64) + 4294967296 * (hi as u64);
    r
}

/// Appends `n` in two bytes.
pub fn write_le16(out: &mut Vec<u8>, n: u16)
    ensures
        final(out)@ == old(out)@ + le16_bytes(n as nat),
{
    out.push((n % 256) as u8);
    out.push((n / 256) as u8);
    proof {
        lemma_fundamental_div_mod_converse((n / 256) as int, 256, 0, (n / 256) as int);
        assert(out@ =~= old(out)@ + le16_bytes(n as nat));
    }
}

/// Appends `n` in four bytes.
pub fn write_le32(out: &mut Vec<u8>, n: u32)
    ensures
        final(out)@ == old(out)@ + le32_bytes(n as nat),
{
    out.push((n % 256) as u8);
    out.push((n / 256 % 256) as u8);
    out.push((n / 65536 % 256) as u8);
    out.push((n / 16777216) as u8);
    proof {
        lemma_fundamental_div_mod_converse((n / 16777216) as int, 256, 0, (n / 16777216) as int);
        assert(out@ =~= old(out)@ + le32_bytes(n as nat));
    }
}

/// Appends `n` in eight bytes.
pub fn write_le64(out: &mut Vec<u8>, n: u64)
    ensures
        final(out)@ == old(out)@ + le64_bytes(n as nat),
{
    write_le32(out, (n % 4294967296) as u32);
    write_le32(out, (n / 4294967296) as u32);
    proof {
        assert(out@ =~= old(out)@ + le64_bytes(n as nat));
    }
}

/// The size prefix of `n`: one byte below 253, else a marker byte and the
/// number in two, four or eight bytes, whichever is the shortest that holds it.
#[verifier::opaque]
pub open spec fn compact(n: nat) -> Seq<u8> {
    if n < 0xfd {
        seq![n as u8]
    } else if n <= 0xffff {
        seq![0xfdu8] + le16_bytes(n)
    } else if n <= 0xffff_ffff {
        seq![0xfeu8] + le32_bytes(n)
    } else {
        seq![0xffu8] + le64_bytes(n)
    }
}

/// Reads a size prefix from the front of `s`: the number and the bytes that
/// follow it. A prefix longer than its number needs is refused.
#[verifier::opaque]
pub open spec fn parse_compact(s: Seq<u8>) -> Result<(nat, Seq<u8>), DecodeError> {
    if s.len() < 1 {
        Err(DecodeError::Truncated)
    } else if s[0] < 0xfd {
        Ok((s[0] as nat, s.skip(1)))
    } else if s[0] == 0xfd {
        if s.len() < 3 {
            Err(DecodeError::Truncated)
        } else if le16(s.skip(1)) < 0xfd {
            Err(DecodeError::NonMinimalLength)
        } else {
            Ok((le16(s.skip(1)), s.skip(3)))
        }
    } else if s[0] == 0xfe {
        if s.len() < 5 {
            Err(DecodeError::Truncated)
        } else if le32(s.skip(1)) <= 0xffff {
            Err(DecodeError::NonMinimalLength)
        } else {
            Ok((le32(s.skip(1)), s.skip(5)))
        }
    } else {
        if s.len() < 9 {
            Err(DecodeError::Truncated)
        } else if le64(s.skip(1)) <= 0xffff_ffff {
            Err(DecodeError::NonMinimalLength)
        } else {
            Ok((le64(s.skip(1)), s.skip(9)))
        }
    }
}

/// A size prefix that was read is followed by fewer bytes than it was read
/// from, and its number fits in 64 bits.
pub proof fn lemma_parse_compact_bounds(s: Seq<u8>)
    ensures
        match parse_compact(s) {
            Ok((n, rest)) => rest.len() < s.len() && n <= u64::MAX,
            Err(_) => true,
        },
{
    reveal(parse_compact);
}

/// Reading back a size prefix gives its number and what followed it.
pub proof fn lemma_compact_round_trip(n: nat, rest: Seq<u8>)
    requires
        n <= u64::MAX,
    ensures
        parse_compact(compact(n) + rest) == Ok::<(nat, Seq<u8>), DecodeError>((n, rest)),
{
    reveal(parse_compact);
    reveal(compact);
    let s = compact(n) + rest;
    if n < 0xfd {
        assert(s.skip(1) =~= rest);
    } else if n <= 0xffff {
        assert(s.skip(1) =~= le16_bytes(n) + rest);
        lemma_le16_round_trip(n, rest);
        assert(s.skip(3) =~= rest);
    } else if n <= 0xffff_ffff {
        assert(s.skip(1) =~= le32_bytes(n) + rest);
        lemma_le32_round_trip(n, rest);
        assert(s.skip(5) =~= rest);
    } else {
        assert(s.skip(1) =~= le64_bytes(n) + rest);
        lemma_le64_round_trip(n, rest);
        assert(s.skip(9) =~= rest);
    }
}

/// Reads a size prefix at `pos`: the number and the position behind it.
pub fn read_compact(bytes: &[u8], pos: usize) -> (r: Result<(u64, usize), DecodeError>)
    requires
        pos <= bytes.len(),
    ensures
        match r {
            Ok((n, next)) => pos < next <= bytes.len() && parse_compact(bytes@.skip(pos as int))
                == Ok::<(nat, Seq<u8>), DecodeError>((n as nat, bytes@.skip(next as int))),
            Err(e) => parse_compact(bytes@.skip(pos as int)) == Err::<(nat, Seq<u8>), DecodeError>(
                e,
            ),
        },
{
    proof {
        reveal(parse_compact);
    }
    let ghost s = bytes@.skip(pos as int);
    let left: usize = bytes.len() - pos;
    if left < 1 {
        return Err(DecodeError::Truncated);
    }
    let first: u8 = bytes[pos];
    if first < 0xfd {
        proof {
            assert(s.skip(1) =~= bytes@.skip(pos as int + 1));
        }
        Ok((first as u64, pos + 1))
    } else if first == 0xfd {
        if left < 3 {
            return Err(DecodeError::Truncated);
        }
        let n: u16 = read_le16(bytes, pos + 1);
        proof {
            assert(s.skip(1) =~= bytes@.skip(pos as int + 1));
            assert(s.skip(3) =~= bytes@.skip(pos as int + 3));
        }
        if n < 0xfd {
            return Err(DecodeError::NonMinimalLength);
        }
        Ok((n as u64, pos + 3))
    } else if first == 0xfe {
        if left < 5 {
            return Err(DecodeError::Truncated);
        }
        let n: u32 = read_le32(bytes, pos + 1);
        proof {
            assert(s.skip(1) =~= bytes@.skip(pos as int + 1));
            assert(s.skip(5) =~= bytes@.skip(pos as int + 5));
        }
        if n <= 0xffff {
            return Err(DecodeError::NonMinimalLength);
        }
        Ok((n as u64, pos + 5))
    } else {
        if left < 9 {
            return Err(DecodeError::Truncated);
        }
        let n: u64 = read_le64(bytes, pos + 1);
        proof {
            assert(s.skip(1) =~= bytes@.skip(pos as int + 1));
            assert(s.skip(9) =~= bytes@.skip(pos as int + 9));
        }
        if n <= 0xffff_ffff {
            return Err(DecodeError::NonMinimalLength);
        }
        Ok((n, pos + 9))
    }
}

/// Appends the size prefix of `n`.
pub fn write_compact(out: &mut Vec<u8>, n: u64)
    ensures
        final(out)@ == old(out)@ + compact(n as nat),
{
    proof {
        reveal(compact);
    }
    if n < 0xfd {
        out.push(n as u8);
        proof {
            assert(out@ =~= old(out)@ + compact(n as nat));
        }
    } else if n <= 0xffff {
        out.push(0xfd);
        write_le16(out, n as u16);
        proof {
            assert(out@ =~= old(out)@ + compact(n as nat));
        }
    } else if n <= 0xffff_ffff {
        out.push(0xfe);
        write_le32(out, n as u32);
        proof {
            assert(out@ =~= old(out)@ + compact(n as nat));
        }
    } else {
        out.push(0xff);
        write_le64(out, n);
        proof {
            assert(out@ =~= old(out)@ + compact(n as nat));
        }
    }
}


proof fn lemma_le16_canonical(s: Seq<u8>)
    requires
        s.len() >= 2,
    ensures
        le16_bytes(le16(s)) == s.take(2),
        le16(s) < 65536,
{
    lemma_digits(le16(s), s[0] as nat, s[1] as nat, 0, 0);
    assert(le16_bytes(le16(s)) =~= s.take(2));
}

/// The number that four bytes spell is written as those four bytes.
pub proof fn lemma_le32_canonical(s: Seq<u8>)
    requires
        s.len() >= 4,
    ensures
        le32_bytes(le32(s)) == s.take(4),
        le32(s) < 4294967296,
{
    lemma_digits(le32(s), s[0] as nat, s[1] as nat, s[2] as nat, s[3] as nat);
    assert(le32_bytes(le32(s)) =~= s.take(4));
}

/// The number that eight bytes spell is written as those eight bytes.
pub proof fn lemma_le64_canonical(s: Seq<u8>)
    requires
        s.len() >= 8,
    ensures
        le64_bytes(le64(s)) == s.take(8),
        le64(s) <= u64::MAX,
{
    lemma_le32_canonical(s);
    lemma_le32_canonical(s.skip(4));
    let lo = le32(s);
    let hi = le32(s.skip(4));
    lemma_fundamental_div_mod_converse(le64(s) as int, 4294967296, hi as int, lo as int);
    assert(s.take(4) + s.skip(4).take(4) =~= s.take(8));
}

/// A size prefix is read from no other bytes than those it is written as.
pub proof fn lemma_parse_compact_canonical(s: Seq<u8>)
    ensures
        match parse_compact(s) {
            Ok((n, rest)) => s == compact(n) + rest && n <= u64::MAX,
            Err(_) => true,
        },
{
    reveal(parse_compact);
    reveal(compact);
    if let Ok((n, rest)) = parse_compact(s) {
        if s[0] < 0xfd {
            assert(s =~= compact(n) + rest);
        } else if s[0] == 0xfd {
            lemma_le16_canonical(s.skip(1));
            assert(s.skip(1).take(2) + s.skip(3) =~= s.skip(1));
            assert(s =~= seq![0xfdu8] + s.skip(1));
            assert(s =~= compact(n) + rest);
        } else if s[0] == 0xfe {
            lemma_le32_canonical(s.skip(1));
            assert(s.skip(1).take(4) + s.skip(5) =~= s.skip(1));
            assert(s =~= seq![0xfeu8] + s.skip(1));
            assert(s =~= compact(n) + rest);
        } else {
            lemma_le64_canonical(s.skip(1));
            assert(s.skip(1).take(8) + s.skip(9) =~= s.skip(1));
            assert(s =~= seq![0xffu8] + s.skip(1));
            assert(s =~= compact(n) + rest);
        }
    }
}

} // verus!
