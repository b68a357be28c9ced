//! Percent-encoding of raw bytes for the tracker announce query. Every
//! byte outside the unreserved set is escaped, so the 20 raw info-hash
//! bytes survive the transport byte for byte.

use vstd::prelude::*;

use crate::textfmt::hex_digit_char;
use crate::textfmt::push_char;

verus! {

/// The unreserved characters of standard percent-encoding: ASCII
/// letters, digits, `-`, `.`, `_` and `~`. Everything else is escaped.
pub open spec fn is_unreserved(b: u8) -> bool {
    (48 <= b <= 57) || (65 <= b <= 90) || (97 <= b <= 122) || b == 45 || b == 46 || b == 95 || b
        == 126
}

/// The percent-encoding of `bytes[i..]`: unreserved bytes stand as
/// themselves, every other byte as `%` and two hex digits.
pub open spec fn percent_chars(bytes: Seq<u8>, i: int) -> Seq<char>
    decreases bytes.len() - i,
{
    if i < 0 || i >= bytes.len() {
        Seq::empty()
    } else {
        (if is_unreserved(bytes[i]) {
            seq![bytes[i] as char]
        } else {
            seq!['%', hex_digit_char((bytes[i] / 16) as int), hex_digit_char((bytes[i] % 16) as int)]
        }) + percent_chars(bytes, i + 1)
    }
}

/// Percent-encodes `bytes`: unreserved ASCII stays, all else becomes
/// `%` followed by the byte as two lowercase hex digits.
pub fn url_encoding(bytes: &[u8]) -> (r: String)
    ensures
        r@ == percent_chars(bytes@, 0),
{
    let mut s = String::new();
    let mut k: usize = 0;
    while k < bytes.len()
        invariant
            k <= bytes.len(),
            percent_chars(bytes@, 0) == s@ + percent_chars(bytes@, k as int),
        decreases bytes.len() - k,
    {
        let ghost prev = s@;
        let b = bytes[k];
        let unreserved = (48 <= b && b <= 57) || (65 <= b && b <= 90) || (97 <= b && b <= 122)
            || b == 45 || b == 46 || b == 95 || b == 126;
        if unreserved {
            push_char(&mut s, b as char);
            proof {
                assert(s@ =~= prev + seq![bytes@[k as int] as char]);
            }
        } else {
            push_char(&mut s, '%');
            let hi = b / 16;
            let lo = b % 16;
            let hc: char = if hi < 10 {
                (48 + hi) as char
            } else {
                (87 + hi) as char
            };
            let lc: char = if lo < 10 {
                (48 + lo) as char
            } else {
                (87 + lo) as char
            };
            push_char(&mut s, hc);
            push_char(&mut s, lc);
            proof {
                assert(s@ =~= prev + seq![
                    '%',
                    hex_digit_char((bytes@[k as int] / 16) as int),
                    hex_digit_char((bytes@[k as int] % 16) as int),
                ]);
            }
        }
        proof {
            let ghost step = if is_unreserved(bytes@[k as int]) {
                seq![bytes@[k as int] as char]
            } else {
                seq![
                    '%',
                    hex_digit_char((bytes@[k as int] / 16) as int),
                    hex_digit_char((bytes@[k as int] % 16) as int),
                ]
            };
            assert(percent_chars(bytes@, k as int) == step + percent_chars(bytes@, k + 1));
            assert((prev + step) + percent_chars(bytes@, k + 1) =~= prev + (step + percent_chars(
                bytes@,
                k + 1,
            )));
        }
        k = k + 1;
    }
    proof {
        assert(percent_chars(bytes@, bytes@.len() as int) =~= Seq::<char>::empty());
        assert(s@ + Seq::<char>::empty() =~= s@);
    }
    s
}

} // verus!
