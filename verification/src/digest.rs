//! Content digests: the MD5 primitive and its lowercase hex rendering.

use vstd::prelude::*;

verus! {

/// The 16-byte MD5 digest of a byte string. The algorithm itself is supplied
/// by the `md5` crate; this name only records that the digest is a fixed
/// function of the input bytes.
pub uninterp spec fn md5_of(data: Seq<u8>) -> Seq<u8>;

/// Relies on `md5::compute`: a 16-byte digest that is a function of the
/// input bytes alone, stable across runs and platforms.
#[verifier::external_body]
pub(crate) fn md5_digest(data: &[u8]) -> (r: Vec<u8>)
    ensures
        r@ == md5_of(data@),
        r@.len() == 16,
{
    md5::compute(data).0.to_vec()
}

/// The ASCII code of the lowercase hex digit for `n` (`n < 16`):
/// `'0'..'9'` are codes 48..57, `'a'..'f'` are codes 97..102.
pub open spec fn hex_digit_byte(n: u8) -> u8 {
    if n < 10 {
        (48 + n) as u8
    } else {
        (87 + n) as u8
    }
}

/// Lowercase hex encoding of a byte string, as ASCII bytes: two digits per
/// byte, high digit first.
pub open spec fn hex_bytes_of(data: Seq<u8>) -> Seq<u8>
    decreases data.len(),
{
    if data.len() == 0 {
        Seq::empty()
    } else {
        hex_bytes_of(data.drop_last())
            + seq![hex_digit_byte(data.last() / 16), hex_digit_byte(data.last() % 16)]
    }
}

/// The lowercase hex digit for `n` (`n < 16`), as a character.
pub open spec fn hex_digit_char(n: u8) -> char {
    if n == 0 {
        '0'
    } else if n == 1 {
        '1'
    } else if n == 2 {
        '2'
    } else if n == 3 {
        '3'
    } else if n == 4 {
        '4'
    } else if n == 5 {
        '5'
    } else if n == 6 {
        '6'
    } else if n == 7 {
        '7'
    } else if n == 8 {
        '8'
    } else if n == 9 {
        '9'
    } else if n == 10 {
        'a'
    } else if n == 11 {
        'b'
    } else if n == 12 {
        'c'
    } else if n == 13 {
        'd'
    } else if n == 14 {
        'e'
    } else {
        'f'
    }
}

/// Lowercase hex encoding of a byte string, as characters.
pub open spec fn hex_chars_of(data: Seq<u8>) -> Seq<char>
    decreases data.len(),
{
    if data.len() == 0 {
        Seq::empty()
    } else {
        hex_chars_of(data.drop_last())
            + seq![hex_digit_char(data.last() / 16), hex_digit_char(data.last() % 16)]
    }
}

/// Hex-encodes a byte string into ASCII bytes.
pub fn hex_bytes(data: &Vec<u8>) -> (r: Vec<u8>)
    ensures
        r@ == hex_bytes_of(data@),
{
    let mut r: Vec<u8> = Vec::new();
    let mut i: usize = 0;
    proof {
        assert(data@.take(0) =~= Seq::<u8>::empty());
    }
    while i < data.len()
        invariant
            i <= data@.len(),
            r@ == hex_bytes_of(data@.take(i as int)),
        decreases data@.len() - i,
    {
        let b = data[i];
        let hi = b / 16;
        let lo = b % 16;
        r.push(if hi < 10 { 48 + hi } else { 87 + hi });
        r.push(if lo < 10 { 48 + lo } else { 87 + lo });
        proof {
            assert(data@.take(i + 1).drop_last() =~= data@.take(i as int));
            assert(data@.take(i + 1).last() == data@[i as int]);
            assert(r@ =~= hex_bytes_of(data@.take(i + 1)));
        }
        i = i + 1;
    }
    proof {
        assert(data@.take(data@.len() as int) =~= data@);
    }
    r
}

/// Relies on `String::push`: appends one character at the end of the string.
#[verifier::external_body]
fn push_char(s: &mut String, c: char)
    ensures
        final(s)@ == old(s)@.push(c),
{
    s.push(c);
}

fn hex_char_exec(n: u8) -> (c: char)
    requires
        n < 16,
    ensures
        c == hex_digit_char(n),
{
    if n == 0 {
        '0'
    } else if n == 1 {
        '1'
    } else if n == 2 {
        '2'
    } else if n == 3 {
        '3'
    } else if n == 4 {
        '4'
    } else if n == 5 {
        '5'
    } else if n == 6 {
        '6'
    } else if n == 7 {
        '7'
    } else if n == 8 {
        '8'
    } else if n == 9 {
        '9'
    } else if n == 10 {
        'a'
    } else if n == 11 {
        'b'
    } else if n == 12 {
        'c'
    } else if n == 13 {
        'd'
    } else if n == 14 {
        'e'
    } else {
        'f'
    }
}

/// Hex-encodes a byte string into a `String`.
pub fn hex_string(data: &Vec<u8>) -> (r: String)
    ensures
        r@ == hex_chars_of(data@),
{
    let mut r = String::new();
    let mut i: usize = 0;
    proof {
        assert(data@.take(0) =~= Seq::<u8>::empty());
    }
    while i < data.len()
        invariant
            i <= data@.len(),
            r@ == hex_chars_of(data@.take(i as int)),
        decreases data@.len() - i,
    {
        let b = data[i];
        push_char(&mut r, hex_char_exec(b / 16));
        push_char(&mut r, hex_char_exec(b % 16));
        proof {
            assert(data@.take(i + 1).drop_last() =~= data@.take(i as int));
            assert(data@.take(i + 1).last() == data@[i as int]);
            assert(r@ =~= hex_chars_of(data@.take(i + 1)));
        }
        i = i + 1;
    }
    proof {
        assert(data@.take(data@.len() as int) =~= data@);
    }
    r
}

/// The digest of one file's byte content, as the fixed-width lowercase hex
/// string that manifest lines and cache keys use.
pub fn hash_bytes(content: &Vec<u8>) -> (r: String)
    ensures
        r@ == hex_chars_of(md5_of(content@)),
        r@.len() == 32,
{
    let d = md5_digest(content.as_slice());
    proof {
        lemma_hex_chars_len(d@);
    }
    hex_string(&d)
}

/// Hex encoding yields two characters per input byte.
pub proof fn lemma_hex_chars_len(data: Seq<u8>)
    ensures
        hex_chars_of(data).len() == 2 * data.len(),
    decreases data.len(),
{
    if data.len() > 0 {
        lemma_hex_chars_len(data.drop_last());
    }
}

} // verus!
