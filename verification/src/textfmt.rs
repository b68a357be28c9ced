//! Text rendering helpers: decimal numbers, lowercase hex, and the byte
//! to character bridge used when building URLs and peer addresses.

use vstd::prelude::*;

verus! {

/// The character for the decimal digit `d`.
pub open spec fn dec_digit_char(d: int) -> char {
    (48 + d) as char
}

/// The decimal digits of `n` as characters, most significant first,
/// without leading zeros.
pub open spec fn dec_chars(n: int) -> Seq<char>
    decreases n,
{
    if n < 10 {
        seq![dec_digit_char(n)]
    } else {
        dec_chars(n / 10).push(dec_digit_char(n % 10))
    }
}

/// The character for the hex digit `d`, lowercase.
pub open spec fn hex_digit_char(d: int) -> char {
    if d < 10 {
        (48 + d) as char
    } else {
        (87 + d) as char
    }
}

/// The lowercase hex rendering of `bytes[i..]`, two characters per byte.
pub open spec fn hex_chars(bytes: Seq<u8>, i: int) -> Seq<char>
    decreases bytes.len() - i,
{
    if i < 0 || i >= bytes.len() {
        Seq::empty()
    } else {
        seq![hex_digit_char((bytes[i] / 16) as int), hex_digit_char((bytes[i] % 16) as int)] + hex_chars(
            bytes,
            i + 1,
        )
    }
}

/// Each byte read as the character with the same code.
pub open spec fn chars_of_bytes(bytes: Seq<u8>) -> Seq<char> {
    Seq::new(bytes.len(), |i: int| bytes[i] as char)
}

/// Relies on String::push: appends exactly the given character.
#[verifier::external_body]
pub fn push_char(s: &mut String, c: char)
    ensures
        final(s)@ == old(s)@ + seq![c],
{
    s.push(c);
}

/// Appends the decimal rendering of `n`.
pub fn push_dec(s: &mut String, n: u64)
    ensures
        final(s)@ == old(s)@ + dec_chars(n as int),
    decreases n,
{
    if n < 10 {
        push_char(s, (48 + n as u8) as char);
        proof {
            assert(s@ =~= old(s)@ + dec_chars(n as int));
        }
    } else {
        push_dec(s, n / 10);
        push_char(s, (48 + (n % 10) as u8) as char);
        proof {
            assert(s@ =~= old(s)@ + dec_chars(n as int));
        }
    }
}

/// Appends one byte as two lowercase hex characters.
fn push_hex_byte(s: &mut String, b: u8)
    ensures
        final(s)@ == old(s)@ + seq![hex_digit_char((b / 16) as int), hex_digit_char((b % 16) as int)],
{
    let hi = b / 16;
    let lo = b % 16;
    let hc: char = if hi < 10 {
        (48 + hi) as char
    } else {
        (87 + hi) as char
    };
    let lc: char = if lo < 10 {
        (48 + lo) as char
    } else {
        (87 + lo) as char
    };
    push_char(s, hc);
    push_char(s, lc);
    proof {
        assert(s@ =~= old(s)@ + seq![hex_digit_char((b / 16) as int), hex_digit_char((b % 16) as int)]);
    }
}

/// The lowercase hex rendering of `bytes`, two characters per byte.
pub fn hex_encode(bytes: &[u8]) -> (r: String)
    ensures
        r@ == hex_chars(bytes@, 0),
{
    let mut s = String::new();
    let ghost whole = hex_chars(bytes@, 0);
    proof {
        lemma_hex_chars(bytes@, 0);
    }
    let mut k: usize = 0;
    while k < bytes.len()
        invariant
            k <= bytes.len(),
            whole == hex_chars(bytes@, 0),
            whole.len() == 2 * bytes@.len(),
            forall|i: int|
                0 <= i < bytes@.len() ==> hex_chars(bytes@, i) == whole.subrange(
                    2 * i,
                    whole.len() as int,
                ),
            s@ == whole.subrange(0, 2 * k),
        decreases bytes.len() - k,
    {
        push_hex_byte(&mut s, bytes[k]);
        proof {
            assert(hex_chars(bytes@, k as int) == seq![
                hex_digit_char((bytes@[k as int] / 16) as int),
                hex_digit_char((bytes@[k as int] % 16) as int),
            ] + hex_chars(bytes@, k + 1));
            assert(hex_chars(bytes@, k as int) == whole.subrange(2 * k, whole.len() as int));
            assert(whole.subrange(2 * k, whole.len() as int)[0] == whole[2 * k]);
            assert(whole.subrange(2 * k, whole.len() as int)[1] == whole[2 * k + 1]);
            assert(s@ =~= whole.subrange(0, 2 * (k + 1)));
        }
        k = k + 1;
    }
    proof {
        assert(whole.subrange(0, whole.len() as int) =~= whole);
    }
    s
}

/// `hex_chars(bytes, i)` is the tail of the full rendering: each byte
/// contributes exactly two characters.
pub proof fn lemma_hex_chars(bytes: Seq<u8>, i: int)
    requires
        0 <= i <= bytes.len(),
    ensures
        hex_chars(bytes, i).len() == 2 * (bytes.len() - i),
        forall|j: int|
            i <= j < bytes.len() ==> hex_chars(bytes, j) == hex_chars(bytes, i).subrange(
                2 * (j - i),
                2 * (bytes.len() - i),
            ),
    decreases bytes.len() - i,
{
    if i < bytes.len() {
        lemma_hex_chars(bytes, i + 1);
        assert forall|j: int|
            i <= j < bytes.len() implies hex_chars(bytes, j) == hex_chars(bytes, i).subrange(
            2 * (j - i),
            2 * (bytes.len() - i),
        ) by {
            if j == i {
                assert(hex_chars(bytes, i).subrange(0, 2 * (bytes.len() - i)) =~= hex_chars(
                    bytes,
                    i,
                ));
            } else {
                assert(hex_chars(bytes, j) == hex_chars(bytes, i + 1).subrange(
                    2 * (j - i - 1),
                    2 * (bytes.len() - i - 1),
                ));
                assert(hex_chars(bytes, i + 1).subrange(
                    2 * (j - i - 1),
                    2 * (bytes.len() - i - 1),
                ) =~= hex_chars(bytes, i).subrange(2 * (j - i), 2 * (bytes.len() - i)));
            }
        };
    }
}

/// Appends every byte of `bytes` as the character with the same code.
pub fn push_bytes_as_chars(s: &mut String, bytes: &[u8])
    ensures
        final(s)@ == old(s)@ + chars_of_bytes(bytes@),
{
    let ghost base = s@;
    let mut k: usize = 0;
    while k < bytes.len()
        invariant
            k <= bytes.len(),
            s@ == base + chars_of_bytes(bytes@).subrange(0, k as int),
        decreases bytes.len() - k,
    {
        push_char(s, bytes[k] as char);
        proof {
            assert(s@ =~= base + chars_of_bytes(bytes@).subrange(0, k + 1));
        }
        k = k + 1;
    }
    proof {
        assert(chars_of_bytes(bytes@).subrange(0, bytes@.len() as int) =~= chars_of_bytes(
            bytes@,
        ));
    }
}

} // verus!
