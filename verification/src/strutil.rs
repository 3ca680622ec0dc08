//! Small verified string helpers shared by the diff and storage modules.

use vstd::prelude::*;
use vstd::string::StrSliceExecFns;
use vstd::string::StringSliceAdditionalSpecFns;
use vstd::utf8::encode_utf8_decode_utf8;

verus! {

/// Relies on std's FromIterator for String: collecting chars builds the
/// string of exactly those characters.
#[verifier::external_body]
pub fn chars_to_string(v: &Vec<char>) -> (r: String)
    ensures
        r@ == v@,
{
    v.iter().collect()
}

/// Compares two string slices by content.
pub fn str_eq(a: &str, b: &str) -> (r: bool)
    ensures
        r == (a@ == b@),
{
    let ab = a.as_bytes();
    let bb = b.as_bytes();
    proof {
        encode_utf8_decode_utf8(a@);
        encode_utf8_decode_utf8(b@);
    }
    if ab.len() != bb.len() {
        // equal views would encode to equal byte strings
        return false;
    }
    let n = ab.len();
    let mut i: usize = 0;
    while i < n
        invariant
            i <= n,
            n == ab@.len() == bb@.len(),
            ab@ == a.spec_bytes(),
            bb@ == b.spec_bytes(),
            forall|j: int| 0 <= j < i ==> ab@[j] == bb@[j],
        decreases n - i,
    {
        if ab[i] != bb[i] {
            proof {
                assert(a.spec_bytes()[i as int] != b.spec_bytes()[i as int]);
            }
            return false;
        }
        i = i + 1;
    }
    proof {
        assert(a.spec_bytes() =~= b.spec_bytes());
        assert(a@ == b@);
    }
    true
}

/// The decimal digit character for d (d at most 9).
pub open spec fn spec_digit(d: nat) -> char {
    if d == 0 {
        '0'
    } else if d == 1 {
        '1'
    } else if d == 2 {
        '2'
    } else if d == 3 {
        '3'
    } else if d == 4 {
        '4'
    } else if d == 5 {
        '5'
    } else if d == 6 {
        '6'
    } else if d == 7 {
        '7'
    } else if d == 8 {
        '8'
    } else {
        '9'
    }
}

/// The decimal rendering of n, most significant digit first, no leading
/// zeros except for n itself being zero.
pub open spec fn spec_decimal(n: nat) -> Seq<char>
    decreases n,
{
    if n < 10 {
        seq![spec_digit(n)]
    } else {
        spec_decimal(n / 10).push(spec_digit(n % 10))
    }
}

fn digit_char(d: u8) -> (c: char)
    requires
        d < 10,
    ensures
        c == spec_digit(d as nat),
{
    match d {
        0 => '0',
        1 => '1',
        2 => '2',
        3 => '3',
        4 => '4',
        5 => '5',
        6 => '6',
        7 => '7',
        8 => '8',
        _ => '9',
    }
}

/// Renders n in decimal.
pub fn u128_decimal(n: u128) -> (v: Vec<char>)
    ensures
        v@ == spec_decimal(n as nat),
    decreases n,
{
    if n < 10 {
        let mut v: Vec<char> = Vec::new();
        v.push(digit_char(n as u8));
        proof {
            assert(v@ =~= seq![spec_digit(n as nat)]);
        }
        v
    } else {
        let mut v = u128_decimal(n / 10);
        v.push(digit_char((n % 10) as u8));
        v
    }
}

/// The lowercase hex digit for d (d at most 15).
pub open spec fn spec_hex_digit(d: nat) -> char {
    if d == 0 {
        '0'
    } else if d == 1 {
        '1'
    } else if d == 2 {
        '2'
    } else if d == 3 {
        '3'
    } else if d == 4 {
        '4'
    } else if d == 5 {
        '5'
    } else if d == 6 {
        '6'
    } else if d == 7 {
        '7'
    } else if d == 8 {
        '8'
    } else if d == 9 {
        '9'
    } else if d == 10 {
        'a'
    } else if d == 11 {
        'b'
    } else if d == 12 {
        'c'
    } else if d == 13 {
        'd'
    } else if d == 14 {
        'e'
    } else {
        'f'
    }
}

/// The lowercase-hex rendering of a byte string: two digits per byte, most
/// significant first.
pub open spec fn hex_of(bytes: Seq<u8>) -> Seq<char>
    decreases bytes.len(),
{
    if bytes.len() == 0 {
        Seq::empty()
    } else {
        hex_of(bytes.drop_last()) + seq![
            spec_hex_digit((bytes.last() / 16) as nat),
            spec_hex_digit((bytes.last() % 16) as nat),
        ]
    }
}

/// The hex rendering is two characters per byte.
pub proof fn lemma_hex_len(bytes: Seq<u8>)
    ensures
        hex_of(bytes).len() == 2 * bytes.len(),
    decreases bytes.len(),
{
    if bytes.len() > 0 {
        lemma_hex_len(bytes.drop_last());
    }
}

fn hex_digit(d: u8) -> (c: char)
    requires
        d < 16,
    ensures
        c == spec_hex_digit(d as nat),
{
    match d {
        0 => '0',
        1 => '1',
        2 => '2',
        3 => '3',
        4 => '4',
        5 => '5',
        6 => '6',
        7 => '7',
        8 => '8',
        9 => '9',
        10 => 'a',
        11 => 'b',
        12 => 'c',
        13 => 'd',
        14 => 'e',
        _ => 'f',
    }
}

/// Renders a byte string in lowercase hex.
pub fn to_hex(bytes: &Vec<u8>) -> (v: Vec<char>)
    ensures
        v@ == hex_of(bytes@),
{
    let mut v: Vec<char> = Vec::new();
    let n = bytes.len();
    let mut i: usize = 0;
    proof {
        assert(bytes@.take(0) =~= Seq::<u8>::empty());
    }
    while i < n
        invariant
            n == bytes@.len(),
            i <= n,
            v@ == hex_of(bytes@.take(i as int)),
        decreases n - i,
    {
        proof {
            assert(bytes@.take(i + 1).drop_last() =~= bytes@.take(i as int));
            assert(bytes@.take(i + 1).last() == bytes@[i as int]);
        }
        let b = bytes[i];
        let hi = hex_digit(b / 16);
        let lo = hex_digit(b % 16);
        v.push(hi);
        v.push(lo);
        proof {
            assert(v@ =~= hex_of(bytes@.take(i + 1)));
        }
        i = i + 1;
    }
    proof {
        assert(bytes@.take(n as int) =~= bytes@);
    }
    v
}

} // verus!
