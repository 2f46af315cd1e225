//! Text forms: bytes in hexadecimal, numbers in decimal, derivation paths.

use vstd::prelude::*;
use vstd::string::StringExecFns;
use crate::keysource::ChildNumber;
use crate::model::SigHashType;

verus! {

/// The lowercase hexadecimal digit of a number below sixteen.
pub open spec fn hex_digit(n: nat) -> char {
    if n == 0 {
        '0'
    } else if n == 1 {
        '1'
    } else if n == 2 {
        '2'
    } else if n == 3 {
        '3'
    } else if n == 4 {
        '4'
    } else if n == 5 {
        '5'
    } else if n == 6 {
        '6'
    } else if n == 7 {
        '7'
    } else if n == 8 {
        '8'
    } else if n == 9 {
        '9'
    } else if n == 10 {
        'a'
    } else if n == 11 {
        'b'
    } else if n == 12 {
        'c'
    } else if n == 13 {
        'd'
    } else if n == 14 {
        'e'
    } else {
        'f'
    }
}

/// Bytes as lowercase hexadecimal text: two digits for each byte, the high
/// four bits first.
pub open spec fn hex_text(bytes: Seq<u8>) -> Seq<char> {
    Seq::new(
        2 * bytes.len(),
        |i: int|
            if i % 2 == 0 {
                hex_digit(bytes[i / 2] as nat / 16)
            } else {
                hex_digit(bytes[i / 2] as nat % 16)
            },
    )
}

/// The number that a hexadecimal digit stands for, in either case.
pub open spec fn hex_value(c: char) -> Option<nat> {
    if c == '0' {
        Some(0)
    } else if c == '1' {
        Some(1)
    } else if c == '2' {
        Some(2)
    } else if c == '3' {
        Some(3)
    } else if c == '4' {
        Some(4)
    } else if c == '5' {
        Some(5)
    } else if c == '6' {
        Some(6)
    } else if c == '7' {
        Some(7)
    } else if c == '8' {
        Some(8)
    } else if c == '9' {
        Some(9)
    } else if c == 'a' || c == 'A' {
        Some(10)
    } else if c == 'b' || c == 'B' {
        Some(11)
    } else if c == 'c' || c == 'C' {
        Some(12)
    } else if c == 'd' || c == 'D' {
        Some(13)
    } else if c == 'e' || c == 'E' {
        Some(14)
    } else if c == 'f' || c == 'F' {
        Some(15)
    } else {
        None
    }
}

/// The text is hexadecimal: an even number of hexadecimal digits.
pub open spec fn is_hex_text(text: Seq<char>) -> bool {
    &&& text.len() % 2 == 0
    &&& forall|i: int| 0 <= i < text.len() ==> hex_value(#[trigger] text[i]) is Some
}

/// The bytes that hexadecimal text spells.
pub open spec fn hex_bytes(text: Seq<char>) -> Seq<u8> {
    Seq::new(
        text.len() / 2,
        |i: int| (16 * hex_value(text[2 * i]).unwrap() + hex_value(text[2 * i + 1]).unwrap()) as u8,
    )
}

/// Calls `hex::encode`. Trusted: the text holds two lowercase hexadecimal
/// digits for each byte, in the order of the bytes, the high four bits first.
#[verifier::external_body]
pub(crate) fn hex_encode(bytes: &[u8]) -> (r: String)
    ensures
        r@ == hex_text(bytes@),
{
    hex::encode(bytes)
}

/// Calls `hex::decode`. Trusted: it succeeds exactly on an even number of
/// hexadecimal digits, of either case, and gives the bytes that they spell.
#[verifier::external_body]
pub(crate) fn hex_decode(text: &str) -> (r: Option<Vec<u8>>)
    ensures
        match r {
            Some(bytes) => is_hex_text(text@) && bytes@ == hex_bytes(text@),
            None => !is_hex_text(text@),
        },
{
    hex::decode(text).ok()
}

/// The decimal digit of a number below ten.
pub open spec fn digit_char(n: nat) -> char {
    hex_digit(if n < 10 {
        n
    } else {
        0
    })
}

/// A number in decimal, without leading zeros.
pub open spec fn decimal(n: nat) -> Seq<char>
    decreases n,
{
    if n < 10 {
        seq![digit_char(n)]
    } else {
        decimal(n / 10).push(digit_char(n % 10))
    }
}

/// The text of one decimal digit.
fn digit_str(d: u32) -> (r: &'static str)
    requires
        d < 10,
    ensures
        r@ == seq![digit_char(d as nat)],
{
    proof {
        reveal_strlit("0");
        reveal_strlit("1");
        reveal_strlit("2");
        reveal_strlit("3");
        reveal_strlit("4");
        reveal_strlit("5");
        reveal_strlit("6");
        reveal_strlit("7");
        reveal_strlit("8");
        reveal_strlit("9");
    }
    let r = if d == 0 {
        "0"
    } else if d == 1 {
        "1"
    } else if d == 2 {
        "2"
    } else if d == 3 {
        "3"
    } else if d == 4 {
        "4"
    } else if d == 5 {
        "5"
    } else if d == 6 {
        "6"
    } else if d == 7 {
        "7"
    } else if d == 8 {
        "8"
    } else {
        "9"
    };
    proof {
        assert(r@ =~= seq![digit_char(d as nat)]);
    }
    r
}

/// Appends a number in decimal.
pub fn push_decimal(out: &mut String, n: u32)
    ensures
        final(out)@ == old(out)@ + decimal(n as nat),
    decreases n,
{
    if n >= 10 {
        push_decimal(out, n / 10);
    }
    out.append(digit_str(n % 10));
    proof {
        assert(out@ =~= old(out)@ + decimal(n as nat));
    }
}

/// The text of one path element: a slash, the index, and an apostrophe where
/// the element is hardened.
pub open spec fn element_text(c: ChildNumber) -> Seq<char> {
    match c {
        ChildNumber::Normal { index } => seq!['/'] + decimal(index as nat),
        ChildNumber::Hardened { index } => (seq!['/'] + decimal(index as nat)).push('\''),
    }
}

/// The text of a derivation path: `m`, then each element in order.
pub open spec fn path_text(path: Seq<ChildNumber>) -> Seq<char>
    decreases path.len(),
{
    if path.len() == 0 {
        seq!['m']
    } else {
        path_text(path.drop_last()) + element_text(path.last())
    }
}

/// Writes a derivation path as text.
pub fn string_derivation_path(path: &[ChildNumber]) -> (r: String)
    ensures
        r@ == path_text(path@),
{
    proof {
        reveal_strlit("m");
        reveal_strlit("/");
        reveal_strlit("'");
    }
    let mut buf = String::from_str("m");
    let mut i: usize = 0;
    proof {
        assert(path@.take(0) =~= Seq::empty());
        assert(buf@ =~= path_text(path@.take(0)));
    }
    while i < path.len()
        invariant
            i <= path.len(),
            buf@ == path_text(path@.take(i as int)),
        decreases path.len() - i,
    {
        let ghost before = buf@;
        buf.append("/");
        match path[i] {
            ChildNumber::Normal { index } => {
                push_decimal(&mut buf, index);
            },
            ChildNumber::Hardened { index } => {
                push_decimal(&mut buf, index);
                buf.append("'");
            },
        }
        proof {
            reveal_strlit("/");
            reveal_strlit("'");
            let next = path@.take(i as int + 1);
            assert(next.drop_last() =~= path@.take(i as int));
            assert(next.last() == path@[i as int]);
            assert(buf@ =~= before + element_text(path@[i as int]));
        }
        i += 1;
    }
    proof {
        assert(path@.take(i as int) =~= path@);
    }
    buf
}

/// The name of a signature-hash type.
pub open spec fn sighash_name(t: SigHashType) -> Seq<char> {
    match t {
        SigHashType::All => "ALL"@,
        SigHashType::NoOutputs => "NONE"@,
        SigHashType::Single => "SINGLE"@,
        SigHashType::AllPlusAnyoneCanPay => "ALL|ANYONECANPAY"@,
        SigHashType::NoOutputsPlusAnyoneCanPay => "NONE|ANYONECANPAY"@,
        SigHashType::SinglePlusAnyoneCanPay => "SINGLE|ANYONECANPAY"@,
    }
}

/// Writes the name of a signature-hash type.
pub fn string_sighashtype(sht: SigHashType) -> (r: String)
    ensures
        r@ == sighash_name(sht),
{
    let name = match sht {
        SigHashType::All => "ALL",
        SigHashType::NoOutputs => "NONE",
        SigHashType::Single => "SINGLE",
        SigHashType::AllPlusAnyoneCanPay => "ALL|ANYONECANPAY",
        SigHashType::NoOutputsPlusAnyoneCanPay => "NONE|ANYONECANPAY",
        SigHashType::SinglePlusAnyoneCanPay => "SINGLE|ANYONECANPAY",
    };
    String::from_str(name)
}

} // verus!
