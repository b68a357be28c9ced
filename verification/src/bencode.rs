//! The bencode codec: a recursive-descent decoder and the matching encoder
//! for the self-describing binary format used by torrent files and tracker
//! responses.
//!
//! The grammar has four productions, dispatched on the first byte:
//! `i<digits>e` for integers, `<digits>:<bytes>` for byte strings,
//! `l...e` for lists and `d...e` for dictionaries. Dictionaries keep the
//! key order in which the pairs were read, because the info-hash is the
//! digest of the original byte layout.

use vstd::prelude::*;
use vstd::slice::slice_subrange;
use vstd::slice::slice_to_vec;

use crate::errors::TorrentError;

verus! {

broadcast use vstd::std_specs::vec::group_vec_axioms, vstd::seq::group_seq_axioms;

/// Abstract model of a bencoded value: an unbounded integer, a byte
/// string, a list, or a dictionary given as an ordered pair sequence.
#[verifier::ext_equal]
pub enum BencodeSpec {
    Int(int),
    Bytes(Seq<u8>),
    List(Seq<BencodeSpec>),
    Dict(Seq<(Seq<u8>, BencodeSpec)>),
}

/// A decoded bencode value. Dictionaries keep the key order in which the
/// pairs were read; info-hash computation depends on it.
#[derive(Debug, PartialEq, Eq)]
pub enum Bencode {
    Int(i64),
    Bytes(Vec<u8>),
    List(Vec<Bencode>),
    Dict(Vec<(Vec<u8>, Bencode)>),
}

impl Bencode {
    pub open spec fn model(self) -> BencodeSpec
        decreases self, 0int, 0int,
    {
        match self {
            Bencode::Int(n) => BencodeSpec::Int(n as int),
            Bencode::Bytes(b) => BencodeSpec::Bytes(b@),
            Bencode::List(items) => BencodeSpec::List(models_of(items@, 0)),
            Bencode::Dict(pairs) => BencodeSpec::Dict(pair_models_of(pairs@, 0)),
        }
    }
}

/// The models of `items[i..]`, in order.
pub open spec fn models_of(items: Seq<Bencode>, i: int) -> Seq<BencodeSpec>
    decreases items, 1int, items.len() - i,
{
    if i < 0 || i >= items.len() {
        Seq::empty()
    } else {
        seq![items[i].model()] + models_of(items, i + 1)
    }
}

/// The models of the key/value pairs `pairs[i..]`, in order.
pub open spec fn pair_models_of(pairs: Seq<(Vec<u8>, Bencode)>, i: int) -> Seq<
    (Seq<u8>, BencodeSpec),
>
    decreases pairs, 1int, pairs.len() - i,
{
    if i < 0 || i >= pairs.len() {
        Seq::empty()
    } else {
        seq![(pairs[i].0@, pairs[i].1.model())] + pair_models_of(pairs, i + 1)
    }
}

impl View for Bencode {
    type V = BencodeSpec;

    open spec fn view(&self) -> BencodeSpec {
        self.model()
    }
}

pub proof fn lemma_models_of(items: Seq<Bencode>, i: int)
    requires
        0 <= i <= items.len(),
    ensures
        models_of(items, i).len() == items.len() - i,
        forall|k: int|
            0 <= k < items.len() - i ==> models_of(items, i)[k] == items[i + k].model(),
    decreases items.len() - i,
{
    if i < items.len() {
        lemma_models_of(items, i + 1);
    }
}

pub proof fn lemma_pair_models_of(pairs: Seq<(Vec<u8>, Bencode)>, i: int)
    requires
        0 <= i <= pairs.len(),
    ensures
        pair_models_of(pairs, i).len() == pairs.len() - i,
        forall|k: int|
            0 <= k < pairs.len() - i ==> pair_models_of(pairs, i)[k] == (
                pairs[i + k].0@,
                pairs[i + k].1.model(),
            ),
    decreases pairs.len() - i,
{
    if i < pairs.len() {
        lemma_pair_models_of(pairs, i + 1);
    }
}

/// `b` is an ASCII decimal digit.
pub open spec fn is_digit(b: u8) -> bool {
    48 <= b <= 57
}

/// The numeric value of the digit byte `b`.
pub open spec fn digit_val(b: u8) -> int {
    b - 48
}

/// The canonical decimal digits of `n`, most significant first,
/// without leading zeros.
pub open spec fn spec_digits(n: nat) -> Seq<u8>
    decreases n,
{
    if n < 10 {
        seq![(48 + n) as u8]
    } else {
        spec_digits(n / 10).push((48 + n % 10) as u8)
    }
}

/// The decimal rendering of `n`, with a leading `-` when negative.
pub open spec fn spec_int_bytes(n: int) -> Seq<u8> {
    if n < 0 {
        seq![45u8] + spec_digits((-n) as nat)
    } else {
        spec_digits(n as nat)
    }
}

/// The bencoding of `v`: `i<digits>e`, `<digits>:<bytes>`, `l...e`
/// or `d...e`, with dictionary pairs written in their stored order.
pub open spec fn spec_encode(v: BencodeSpec) -> Seq<u8>
    decreases v, 0int, 0int,
{
    match v {
        BencodeSpec::Int(n) => seq![105u8] + spec_int_bytes(n) + seq![101u8],
        BencodeSpec::Bytes(b) => spec_digits(b.len()) + seq![58u8] + b,
        BencodeSpec::List(items) => seq![108u8] + spec_encode_items(items, 0) + seq![101u8],
        BencodeSpec::Dict(pairs) => seq![100u8] + spec_encode_pairs(pairs, 0) + seq![101u8],
    }
}

/// The concatenated encodings of `items[i..]`.
pub open spec fn spec_encode_items(items: Seq<BencodeSpec>, i: int) -> Seq<u8>
    decreases items, 1int, items.len() - i,
{
    if i < 0 || i >= items.len() {
        Seq::empty()
    } else {
        spec_encode(items[i]) + spec_encode_items(items, i + 1)
    }
}

/// The concatenated encodings of the pairs `pairs[i..]`: each key as a
/// byte string, followed by its value.
pub open spec fn spec_encode_pairs(pairs: Seq<(Seq<u8>, BencodeSpec)>, i: int) -> Seq<u8>
    decreases pairs, 1int, pairs.len() - i,
{
    if i < 0 || i >= pairs.len() {
        Seq::empty()
    } else {
        spec_digits(pairs[i].0.len()) + seq![58u8] + pairs[i].0 + spec_encode(pairs[i].1)
            + spec_encode_pairs(pairs, i + 1)
    }
}

/// The first position at or after `i` that does not hold a digit.
pub open spec fn spec_digits_end(s: Seq<u8>, i: int) -> int
    decreases s.len() - i,
{
    if i < 0 || i >= s.len() {
        i
    } else if is_digit(s[i]) {
        spec_digits_end(s, i + 1)
    } else {
        i
    }
}

/// The value of the digit run `s[i..end]`, read as a decimal number.
pub open spec fn spec_digits_val(s: Seq<u8>, i: int, end: int) -> int
    decreases end - i,
{
    if i >= end {
        0
    } else {
        spec_digits_val(s, i, end - 1) * 10 + digit_val(s[end - 1])
    }
}

/// What decoding one value at position `i` of `s` yields: the value and
/// the position one past its encoding, or `None` when `s` does not match
/// the grammar there. Integers must fit in a signed 64-bit word; digit
/// runs may carry leading zeros; byte strings are read as raw bytes.
pub open spec fn spec_decode_at(s: Seq<u8>, i: int) -> Option<(BencodeSpec, int)>
    decreases s.len() - i, 0int, 0int,
{
    if i < 0 || i >= s.len() {
        None
    } else if s[i] == 105 {  // 'i'
        let neg = i + 1 < s.len() && s[i + 1] == 45;
        let d0 = if neg { i + 2 } else { i + 1 };
        let de = spec_digits_end(s, d0);
        if de == d0 || de >= s.len() || s[de] != 101 {
            None
        } else {
            let m = spec_digits_val(s, d0, de);
            let v = if neg { -m } else { m };
            if v < i64::MIN || v > i64::MAX {
                None
            } else {
                Some((BencodeSpec::Int(v), de + 1))
            }
        }
    } else if is_digit(s[i]) {
        let de = spec_digits_end(s, i);
        if de >= s.len() || s[de] != 58 {  // ':'
            None
        } else {
            let n = spec_digits_val(s, i, de);
            if de + 1 + n > s.len() {
                None
            } else {
                Some((BencodeSpec::Bytes(s.subrange(de + 1, de + 1 + n)), de + 1 + n))
            }
        }
    } else if s[i] == 108 {  // 'l'
        match spec_decode_items(s, i + 1) {
            None => None,
            Some((vs, end)) => Some((BencodeSpec::List(vs), end)),
        }
    } else if s[i] == 100 {  // 'd'
        match spec_decode_pairs(s, i + 1) {
            None => None,
            Some((ps, end)) => Some((BencodeSpec::Dict(ps), end)),
        }
    } else {
        None
    }
}

/// What decoding list elements from position `i` up to a terminating
/// `e` yields: the elements and the position one past the terminator.
pub open spec fn spec_decode_items(s: Seq<u8>, i: int) -> Option<(Seq<BencodeSpec>, int)>
    decreases s.len() - i, 1int, 0int,
{
    if i < 0 || i >= s.len() {
        None
    } else if s[i] == 101 {  // 'e'
        Some((Seq::empty(), i + 1))
    } else {
        match spec_decode_at(s, i) {
            None => None,
            Some((v, j)) => if j <= i || j > s.len() {
                None
            } else {
                match spec_decode_items(s, j) {
                    None => None,
                    Some((vs, end)) => Some((seq![v] + vs, end)),
                }
            },
        }
    }
}

/// What decoding dictionary pairs from position `i` up to a terminating
/// `e` yields. Each key must be a byte string; pairs keep input order.
pub open spec fn spec_decode_pairs(s: Seq<u8>, i: int) -> Option<
    (Seq<(Seq<u8>, BencodeSpec)>, int),
>
    decreases s.len() - i, 1int, 0int,
{
    if i < 0 || i >= s.len() {
        None
    } else if s[i] == 101 {  // 'e'
        Some((Seq::empty(), i + 1))
    } else {
        match spec_decode_at(s, i) {
            None => None,
            Some((k, j)) => match k {
                BencodeSpec::Bytes(kb) => if j <= i || j > s.len() {
                    None
                } else {
                    match spec_decode_at(s, j) {
                        None => None,
                        Some((v, j2)) => if j2 <= j || j2 > s.len() {
                            None
                        } else {
                            match spec_decode_pairs(s, j2) {
                                None => None,
                                Some((ps, end)) => Some((seq![(kb, v)] + ps, end)),
                            }
                        },
                    }
                },
                _ => None,
            },
        }
    }
}

pub proof fn lemma_digits_val_nonneg(s: Seq<u8>, i: int, end: int)
    requires
        forall|k: int| i <= k < end ==> is_digit(s[k]),
    ensures
        spec_digits_val(s, i, end) >= 0,
    decreases end - i,
{
    if i < end {
        lemma_digits_val_nonneg(s, i, end - 1);
    }
}

/// A digit run's value only grows as the run extends to the right.
pub proof fn lemma_digits_val_monotone(s: Seq<u8>, i: int, e1: int, e2: int)
    requires
        i <= e1 <= e2,
        forall|k: int| i <= k < e2 ==> is_digit(s[k]),
    ensures
        spec_digits_val(s, i, e1) <= spec_digits_val(s, i, e2),
    decreases e2 - e1,
{
    if e1 < e2 {
        lemma_digits_val_monotone(s, i, e1, e2 - 1);
        lemma_digits_val_nonneg(s, i, e2 - 1);
    }
}

/// Finds the end of the digit run that starts at `start`.
fn scan_digits(input: &[u8], start: usize) -> (end: usize)
    requires
        start <= input.len(),
    ensures
        end == spec_digits_end(input@, start as int),
        start <= end <= input.len(),
        forall|k: int| start <= k < end ==> is_digit(input@[k]),
{
    let mut j = start;
    while j < input.len() && 48 <= input[j] && input[j] <= 57
        invariant
            start <= j <= input.len(),
            spec_digits_end(input@, start as int) == spec_digits_end(input@, j as int),
            forall|k: int| start <= k < j ==> is_digit(input@[k]),
        decreases input.len() - j,
    {
        j = j + 1;
    }
    j
}

/// Reads the value of the digit run `input[start..end]`, refusing values
/// above `limit`.
fn digits_value_upto(input: &[u8], start: usize, end: usize, limit: u64) -> (r: Option<u64>)
    requires
        start <= end <= input.len(),
        forall|k: int| start <= k < end ==> is_digit(input@[k]),
    ensures
        match r {
            Some(v) => v as int == spec_digits_val(input@, start as int, end as int) && v
                <= limit,
            None => spec_digits_val(input@, start as int, end as int) > limit,
        },
{
    let ghost s = input@;
    let mut acc: u64 = 0;
    let mut k = start;
    while k < end
        invariant
            start <= k <= end <= input.len(),
            forall|k2: int| start <= k2 < end ==> is_digit(s[k2]),
            s == input@,
            acc as int == spec_digits_val(s, start as int, k as int),
            acc <= limit,
        decreases end - k,
    {
        let d = input[k] - 48;
        proof {
            assert(spec_digits_val(s, start as int, k + 1) == acc * 10 + d);
        }
        if acc > limit / 10 {
            proof {
                assert(limit / 10 * 10 + limit % 10 == limit);
                assert(acc * 10 >= (limit / 10 + 1) * 10);
                assert(spec_digits_val(s, start as int, k + 1) > limit);
                lemma_digits_val_monotone(s, start as int, k + 1, end as int);
            }
            return None;
        }
        proof {
            assert(limit / 10 * 10 + limit % 10 == limit);
            assert(acc * 10 <= limit / 10 * 10);
        }
        let acc10 = acc * 10;
        if (d as u64) > limit - acc10 {
            proof {
                assert(spec_digits_val(s, start as int, k + 1) > limit);
                lemma_digits_val_monotone(s, start as int, k + 1, end as int);
            }
            return None;
        }
        acc = acc10 + (d as u64);
        k = k + 1;
    }
    Some(acc)
}

/// A value whose integers all fit in a signed 64-bit word, recursively:
/// exactly the values the executable `Bencode` type can hold.
pub open spec fn wf_value(v: BencodeSpec) -> bool
    decreases v, 0int, 0int,
{
    match v {
        BencodeSpec::Int(n) => i64::MIN <= n <= i64::MAX,
        BencodeSpec::Bytes(_) => true,
        BencodeSpec::List(items) => wf_items(items, 0),
        BencodeSpec::Dict(pairs) => wf_pairs(pairs, 0),
    }
}

pub open spec fn wf_items(items: Seq<BencodeSpec>, i: int) -> bool
    decreases items, 1int, items.len() - i,
{
    i < 0 || i >= items.len() || (wf_value(items[i]) && wf_items(items, i + 1))
}

pub open spec fn wf_pairs(pairs: Seq<(Seq<u8>, BencodeSpec)>, i: int) -> bool
    decreases pairs, 1int, pairs.len() - i,
{
    i < 0 || i >= pairs.len() || (wf_value(pairs[i].1) && wf_pairs(pairs, i + 1))
}

/// The model of every executable value is well formed.
pub proof fn lemma_view_wf(v: Bencode)
    ensures
        wf_value(v@),
    decreases v@, 0int, 0int,
{
    match v {
        Bencode::Int(_) => {
        },
        Bencode::Bytes(_) => {
        },
        Bencode::List(items) => {
            match v@ {
                BencodeSpec::List(ms) => {
                    assert(decreases_to!(v@ => ms));
                    lemma_models_of(items@, 0);
                    lemma_view_wf_items(items@, 0);
                },
                _ => {
                    assert(false);
                },
            }
        },
        Bencode::Dict(pairs) => {
            match v@ {
                BencodeSpec::Dict(ps) => {
                    assert(decreases_to!(v@ => ps));
                    lemma_pair_models_of(pairs@, 0);
                    lemma_view_wf_pairs(pairs@, 0);
                },
                _ => {
                    assert(false);
                },
            }
        },
    }
}

proof fn lemma_view_wf_items(items: Seq<Bencode>, k: int)
    requires
        0 <= k <= items.len(),
    ensures
        wf_items(models_of(items, 0), k),
    decreases models_of(items, 0), 1int, items.len() - k,
{
    lemma_models_of(items, 0);
    let ms = models_of(items, 0);
    if k < items.len() {
        assert(decreases_to!(ms => ms[k]));
        assert(ms[k] == items[k]@);
        lemma_view_wf(items[k]);
        lemma_view_wf_items(items, k + 1);
    }
}

proof fn lemma_view_wf_pairs(pairs: Seq<(Vec<u8>, Bencode)>, k: int)
    requires
        0 <= k <= pairs.len(),
    ensures
        wf_pairs(pair_models_of(pairs, 0), k),
    decreases pair_models_of(pairs, 0), 1int, pairs.len() - k,
{
    lemma_pair_models_of(pairs, 0);
    let ps = pair_models_of(pairs, 0);
    if k < pairs.len() {
        assert(decreases_to!(ps => ps[k]));
        assert(decreases_to!(ps[k] => ps[k].1));
        assert(ps[k].1 == pairs[k].1@);
        lemma_view_wf(pairs[k].1);
        lemma_view_wf_pairs(pairs, k + 1);
    }
}

/// The digits of a number are decimal digits, and there is at least one.
pub proof fn lemma_spec_digits(n: nat)
    ensures
        spec_digits(n).len() >= 1,
        forall|k: int| 0 <= k < spec_digits(n).len() ==> is_digit(spec_digits(n)[k]),
    decreases n,
{
    if n >= 10 {
        lemma_spec_digits(n / 10);
    }
}

proof fn lemma_digits_end_at(s: Seq<u8>, i: int, end: int)
    requires
        0 <= i <= end <= s.len(),
        forall|k: int| i <= k < end ==> is_digit(s[k]),
        end == s.len() || !is_digit(s[end]),
    ensures
        spec_digits_end(s, i) == end,
    decreases end - i,
{
    if i < end {
        lemma_digits_end_at(s, i + 1, end);
    }
}

/// If `p` sits at position `i` of `s`, every element of `p` is readable
/// through `s` directly.
proof fn lemma_eq_elements(s: Seq<u8>, i: int, p: Seq<u8>)
    requires
        0 <= i,
        i + p.len() <= s.len(),
        s.subrange(i, i + p.len() as int) == p,
    ensures
        forall|k: int| 0 <= k < p.len() ==> s[i + k] == #[trigger] p[k],
{
    assert forall|k: int| 0 <= k < p.len() implies s[i + k] == #[trigger] p[k] by {
        assert(s.subrange(i, i + p.len() as int)[k] == s[i + k]);
    };
}

proof fn lemma_digits_val_at(s: Seq<u8>, i: int, n: nat)
    requires
        0 <= i,
        i + spec_digits(n).len() <= s.len(),
        s.subrange(i, i + spec_digits(n).len() as int) == spec_digits(n),
    ensures
        spec_digits_val(s, i, i + spec_digits(n).len() as int) == n,
    decreases n,
{
    let full = spec_digits(n);
    let len = full.len() as int;
    lemma_eq_elements(s, i, full);
    if n < 10 {
        assert(s[i] == full[0]);
        assert(spec_digits_val(s, i, i) == 0);
        assert(spec_digits_val(s, i, i + 1) == digit_val(s[i]));
    } else {
        let prefix = spec_digits(n / 10);
        assert(full == prefix.push((48 + n % 10) as u8));
        assert(full.len() == prefix.len() + 1);
        assert forall|k: int| 0 <= k < len - 1 implies s.subrange(i, i + len - 1)[k]
            == prefix[k] by {
            assert(s[i + k] == full[k]);
            assert(full[k] == prefix.push((48 + n % 10) as u8)[k]);
            assert(s.subrange(i, i + len - 1)[k] == s[i + k]);
        };
        assert(s.subrange(i, i + prefix.len() as int) =~= prefix);
        lemma_digits_val_at(s, i, n / 10);
        assert(s[i + len - 1] == full[len - 1]);
        assert(digit_val(full[len - 1]) == n % 10);
        assert(spec_digits_val(s, i, i + len) == spec_digits_val(s, i, i + len - 1) * 10
            + digit_val(s[i + len - 1]));
        assert(n / 10 * 10 + n % 10 == n);
    }
}

proof fn lemma_subrange_split(s: Seq<u8>, i: int, a: Seq<u8>, b: Seq<u8>)
    requires
        0 <= i,
        i + a.len() + b.len() <= s.len(),
        s.subrange(i, i + a.len() + b.len()) == a + b,
    ensures
        s.subrange(i, i + a.len() as int) == a,
        s.subrange(i + a.len() as int, i + a.len() + b.len()) == b,
{
    lemma_eq_elements(s, i, a + b);
    assert forall|k: int| 0 <= k < a.len() implies s.subrange(i, i + a.len() as int)[k]
        == a[k] by {
        assert(s[i + k] == (a + b)[k]);
        assert(s.subrange(i, i + a.len() as int)[k] == s[i + k]);
    };
    assert(s.subrange(i, i + a.len() as int) =~= a);
    assert forall|k: int| 0 <= k < b.len() implies s.subrange(
        i + a.len() as int,
        i + a.len() + b.len(),
    )[k] == b[k] by {
        assert(s[i + (a.len() + k)] == (a + b)[a.len() + k]);
        assert(s.subrange(i + a.len() as int, i + a.len() + b.len())[k] == s[i + a.len() + k]);
    };
    assert(s.subrange(i + a.len() as int, i + a.len() + b.len()) =~= b);
}

/// Every encoding is at least two bytes long and never starts with the
/// terminator byte `e`.
pub proof fn lemma_encode_shape(v: BencodeSpec)
    ensures
        spec_encode(v).len() >= 2,
        spec_encode(v)[0] != 101,
{
    match v {
        BencodeSpec::Int(n) => {
            if n < 0 {
                lemma_spec_digits((-n) as nat);
            } else {
                lemma_spec_digits(n as nat);
            }
        },
        BencodeSpec::Bytes(b) => {
            lemma_spec_digits(b.len());
            assert(spec_encode(v)[0] == spec_digits(b.len())[0]);
        },
        BencodeSpec::List(_) => {
        },
        BencodeSpec::Dict(_) => {
        },
    }
}

/// Decoding one byte-string encoding yields its payload back.
proof fn lemma_rt_bytes(s: Seq<u8>, i: int, kb: Seq<u8>)
    requires
        0 <= i,
        i + spec_encode(BencodeSpec::Bytes(kb)).len() <= s.len(),
        s.subrange(i, i + spec_encode(BencodeSpec::Bytes(kb)).len() as int) == spec_encode(
            BencodeSpec::Bytes(kb),
        ),
    ensures
        spec_decode_at(s, i) == Some(
            (BencodeSpec::Bytes(kb), i + spec_encode(BencodeSpec::Bytes(kb)).len() as int),
        ),
{
    let dg = spec_digits(kb.len());
    let dl = dg.len() as int;
    let enc = spec_encode(BencodeSpec::Bytes(kb));
    let el = enc.len() as int;
    lemma_spec_digits(kb.len());
    lemma_eq_elements(s, i, enc);
    assert(forall|k: int| 0 <= k < dl ==> #[trigger] enc[k] == dg[k]);
    assert(enc[dl] == 58);
    assert(forall|k: int| 0 <= k < kb.len() ==> enc[dl + 1 + k] == kb[k]);
    // dispatch: the first byte is a digit and not 'i'
    assert(s[i] == enc[0]);
    assert(enc[0] == dg[0]);
    assert(is_digit(dg[0]));
    assert(is_digit(s[i]));
    assert(s[i] != 105 && s[i] != 101);
    // the digit run ends exactly at the ':'
    assert forall|k: int| i <= k < i + dl implies is_digit(s[k]) by {
        assert(s[k] == enc[k - i]);
        assert(enc[k - i] == dg[k - i]);
    };
    assert(s[i + dl] == enc[dl]);
    lemma_digits_end_at(s, i, i + dl);
    // its value is the payload length
    assert(s.subrange(i, i + dl) =~= dg);
    lemma_digits_val_at(s, i, kb.len());
    // the payload bytes are the payload
    assert(s.subrange(i + dl + 1, i + dl + 1 + kb.len()) =~= kb);
}

/// Decoding an encoding in place yields the encoded value and ends one
/// past it, whatever follows: encodings are self-delimiting.
pub proof fn lemma_rt(s: Seq<u8>, i: int, v: BencodeSpec)
    requires
        wf_value(v),
        0 <= i,
        i + spec_encode(v).len() <= s.len(),
        s.subrange(i, i + spec_encode(v).len() as int) == spec_encode(v),
    ensures
        spec_decode_at(s, i) == Some((v, i + spec_encode(v).len() as int)),
    decreases v, 0int, 0int,
{
    let enc = spec_encode(v);
    let el = enc.len() as int;
    lemma_eq_elements(s, i, enc);
    match v {
        BencodeSpec::Int(n) => {
            let m: nat = if n < 0 {
                (-n) as nat
            } else {
                n as nat
            };
            let dg = spec_digits(m);
            let dl = dg.len() as int;
            lemma_spec_digits(m);
            assert(enc[0] == 105);
            assert(s[i] == enc[0]);
            assert(s[i] == 105);
            let d0 = if n < 0 {
                i + 2
            } else {
                i + 1
            };
            if n < 0 {
                assert(enc[1] == 45);
                assert(s[i + 1] == enc[1]);
                assert(forall|k: int| 0 <= k < dl ==> #[trigger] enc[2 + k] == dg[k]);
                assert(s[i + 1] == 45);
            } else {
                assert(forall|k: int| 0 <= k < dl ==> #[trigger] enc[1 + k] == dg[k]);
                assert(enc[1] == dg[0]);
                assert(is_digit(dg[0]));
                assert(!(s[i + 1] == 45));
            }
            assert forall|k: int| d0 <= k < d0 + dl implies is_digit(s[k]) by {
                if n < 0 {
                    assert(s[k] == enc[k - i]);
                    assert(enc[2 + (k - d0)] == dg[k - d0]);
                } else {
                    assert(s[k] == enc[k - i]);
                    assert(enc[1 + (k - d0)] == dg[k - d0]);
                }
            };
            assert(el == 2 + spec_int_bytes(n).len());
            if n < 0 {
                assert(spec_int_bytes(n).len() == 1 + dl);
            } else {
                assert(spec_int_bytes(n).len() == dl);
            }
            assert(enc[el - 1] == 101);
            assert(s[i + (el - 1)] == enc[el - 1]);
            assert(s[d0 + dl] == 101);
            lemma_digits_end_at(s, d0, d0 + dl);
            assert forall|k: int| 0 <= k < dl implies s.subrange(d0, d0 + dl)[k] == dg[k] by {
                assert(s.subrange(d0, d0 + dl)[k] == s[d0 + k]);
                assert(s[d0 + k] == enc[(d0 + k) - i]);
                if n < 0 {
                    assert(enc[2 + k] == dg[k]);
                } else {
                    assert(enc[1 + k] == dg[k]);
                }
            };
            assert(s.subrange(d0, d0 + dl) =~= dg);
            lemma_digits_val_at(s, d0, m);
        },
        BencodeSpec::Bytes(b) => {
            lemma_rt_bytes(s, i, b);
        },
        BencodeSpec::List(items) => {
            assert(enc[0] == 108);
            assert(s[i] == enc[0]);
            match v {
                BencodeSpec::List(items2) => {
                    assert(decreases_to!(v => items2));
                },
                _ => {
                    assert(false);
                },
            }
            let body = spec_encode_items(items, 0) + seq![101u8];
            assert(seq![108u8] + body =~= enc);
            lemma_subrange_split(s, i, seq![108u8], body);
            lemma_rt_items(s, i + 1, items, 0);
            assert(items.subrange(0, items.len() as int) =~= items);
        },
        BencodeSpec::Dict(pairs) => {
            assert(enc[0] == 100);
            assert(s[i] == enc[0]);
            match v {
                BencodeSpec::Dict(pairs2) => {
                    assert(decreases_to!(v => pairs2));
                },
                _ => {
                    assert(false);
                },
            }
            let body = spec_encode_pairs(pairs, 0) + seq![101u8];
            assert(seq![100u8] + body =~= enc);
            lemma_subrange_split(s, i, seq![100u8], body);
            lemma_rt_pairs(s, i + 1, pairs, 0);
            assert(pairs.subrange(0, pairs.len() as int) =~= pairs);
        },
    }
}

proof fn lemma_rt_items(s: Seq<u8>, i: int, items: Seq<BencodeSpec>, k: int)
    requires
        wf_items(items, k),
        0 <= k <= items.len(),
        0 <= i,
        i + spec_encode_items(items, k).len() + 1 <= s.len(),
        s.subrange(i, i + spec_encode_items(items, k).len() + 1) == spec_encode_items(items, k)
            + seq![101u8],
    ensures
        spec_decode_items(s, i) == Some(
            (
                items.subrange(k, items.len() as int),
                i + spec_encode_items(items, k).len() + 1,
            ),
        ),
    decreases items, 1int, items.len() - k,
{
    let body = spec_encode_items(items, k);
    let bl = body.len() as int;
    lemma_eq_elements(s, i, body + seq![101u8]);
    if k == items.len() {
        assert((body + seq![101u8])[0] == 101);
        assert(s[i] == 101);
        assert(items.subrange(k, items.len() as int) =~= Seq::<BencodeSpec>::empty());
    } else {
        assert(decreases_to!(items => items[k]));
        let head = spec_encode(items[k]);
        let hl = head.len() as int;
        let tail = spec_encode_items(items, k + 1) + seq![101u8];
        assert(head + tail =~= body + seq![101u8]);
        lemma_subrange_split(s, i, head, tail);
        lemma_encode_shape(items[k]);
        lemma_rt(s, i, items[k]);
        assert(s[i] == head[0]);
        assert(s[i] != 101);
        lemma_rt_items(s, i + hl, items, k + 1);
        assert(seq![items[k]] + items.subrange(k + 1, items.len() as int) =~= items.subrange(
            k,
            items.len() as int,
        ));
    }
}

proof fn lemma_rt_pairs(s: Seq<u8>, i: int, pairs: Seq<(Seq<u8>, BencodeSpec)>, k: int)
    requires
        wf_pairs(pairs, k),
        0 <= k <= pairs.len(),
        0 <= i,
        i + spec_encode_pairs(pairs, k).len() + 1 <= s.len(),
        s.subrange(i, i + spec_encode_pairs(pairs, k).len() + 1) == spec_encode_pairs(pairs, k)
            + seq![101u8],
    ensures
        spec_decode_pairs(s, i) == Some(
            (
                pairs.subrange(k, pairs.len() as int),
                i + spec_encode_pairs(pairs, k).len() + 1,
            ),
        ),
    decreases pairs, 1int, pairs.len() - k,
{
    let body = spec_encode_pairs(pairs, k);
    let bl = body.len() as int;
    lemma_eq_elements(s, i, body + seq![101u8]);
    if k == pairs.len() {
        assert((body + seq![101u8])[0] == 101);
        assert(s[i] == 101);
        assert(pairs.subrange(k, pairs.len() as int) =~= Seq::<(Seq<u8>, BencodeSpec)>::empty());
    } else {
        assert(decreases_to!(pairs => pairs[k]));
        assert(decreases_to!(pairs[k] => pairs[k].1));
        let kb = pairs[k].0;
        let khead = spec_encode(BencodeSpec::Bytes(kb));
        let khl = khead.len() as int;
        let vhead = spec_encode(pairs[k].1);
        let vhl = vhead.len() as int;
        let tail = spec_encode_pairs(pairs, k + 1) + seq![101u8];
        assert(khead =~= spec_digits(kb.len()) + seq![58u8] + kb);
        assert(khead + (vhead + tail) =~= body + seq![101u8]);
        lemma_subrange_split(s, i, khead, vhead + tail);
        lemma_subrange_split(s, i + khl, vhead, tail);
        lemma_spec_digits(kb.len());
        assert(s[i] == khead[0]);
        assert(is_digit(s[i]) && s[i] != 101 && s[i] != 105);
        lemma_rt_bytes(s, i, kb);
        lemma_rt(s, i + khl, pairs[k].1);
        lemma_rt_pairs(s, i + khl + vhl, pairs, k + 1);
        assert(seq![(kb, pairs[k].1)] + pairs.subrange(k + 1, pairs.len() as int)
            =~= pairs.subrange(k, pairs.len() as int));
    }
}

/// Round trip: decoding the encoder's output yields an equal value and
/// consumes the whole encoding. For dictionaries this includes the key
/// order, which both directions preserve.
pub proof fn lemma_round_trip(v: BencodeSpec)
    requires
        wf_value(v),
    ensures
        spec_decode_at(spec_encode(v), 0) == Some((v, spec_encode(v).len() as int)),
{
    let s = spec_encode(v);
    assert(s.subrange(0, s.len() as int) =~= s);
    lemma_rt(s, 0, v);
}

/// The value at `i` is canonically encoded: digit runs carry no
/// leading zero (unless they are the single digit zero), no integer
/// is written with a negative sign and value zero, and every nested
/// value is canonical too. The encoder only produces such bytes.
pub open spec fn canonical_at(s: Seq<u8>, i: int) -> bool
    decreases s.len() - i, 0int, 0int,
{
    if i < 0 || i >= s.len() {
        true
    } else if s[i] == 105 {  // 'i'
        let neg = i + 1 < s.len() && s[i + 1] == 45;
        let d0 = if neg {
            i + 2
        } else {
            i + 1
        };
        let de = spec_digits_end(s, d0);
        (de <= d0 + 1 || s[d0] != 48) && (!neg || spec_digits_val(s, d0, de) != 0)
    } else if is_digit(s[i]) {
        let de = spec_digits_end(s, i);
        de <= i + 1 || s[i] != 48
    } else if s[i] == 108 {  // 'l'
        canonical_items(s, i + 1)
    } else if s[i] == 100 {  // 'd'
        canonical_pairs(s, i + 1)
    } else {
        true
    }
}

pub open spec fn canonical_items(s: Seq<u8>, i: int) -> bool
    decreases s.len() - i, 1int, 0int,
{
    if i < 0 || i >= s.len() || s[i] == 101 {
        true
    } else {
        canonical_at(s, i) && (match spec_decode_at(s, i) {
            None => true,
            Some((v, j)) => j <= i || j > s.len() || canonical_items(s, j),
        })
    }
}

pub open spec fn canonical_pairs(s: Seq<u8>, i: int) -> bool
    decreases s.len() - i, 1int, 0int,
{
    if i < 0 || i >= s.len() || s[i] == 101 {
        true
    } else {
        canonical_at(s, i) && (match spec_decode_at(s, i) {
            None => true,
            Some((k, j)) => j <= i || j > s.len() || (canonical_at(s, j)
                && (match spec_decode_at(s, j) {
                None => true,
                Some((v, j2)) => j2 <= j || j2 > s.len() || canonical_pairs(s, j2),
            })),
        })
    }
}

/// A digit run with at least one digit and no leading zero holds a
/// positive value.
proof fn lemma_digits_val_positive(s: Seq<u8>, i: int, end: int)
    requires
        i < end,
        forall|k: int| i <= k < end ==> is_digit(s[k]),
        digit_val(s[i]) >= 1,
    ensures
        spec_digits_val(s, i, end) >= 1,
    decreases end - i,
{
    if end == i + 1 {
        assert(spec_digits_val(s, i, i) == 0);
    } else {
        lemma_digits_val_positive(s, i, end - 1);
        lemma_digits_val_nonneg(s, i, end);
    }
}

/// Rendering the value of a canonical digit run gives the run back.
proof fn lemma_digits_canonical(s: Seq<u8>, i: int, end: int)
    requires
        0 <= i < end <= s.len(),
        forall|k: int| i <= k < end ==> is_digit(s[k]),
        end == i + 1 || s[i] != 48,
    ensures
        spec_digits(spec_digits_val(s, i, end) as nat) == s.subrange(i, end),
    decreases end - i,
{
    lemma_digits_val_nonneg(s, i, end);
    let n = spec_digits_val(s, i, end);
    if end == i + 1 {
        assert(spec_digits_val(s, i, i) == 0);
        assert(n == digit_val(s[i]));
        assert(spec_digits(n as nat) =~= s.subrange(i, end));
    } else {
        let m = spec_digits_val(s, i, end - 1);
        lemma_digits_val_positive(s, i, end - 1);
        assert(n == m * 10 + digit_val(s[end - 1]));
        assert(n >= 10);
        assert(n / 10 == m && n % 10 == digit_val(s[end - 1]));
        lemma_digits_canonical(s, i, end - 1);
        assert(spec_digits(n as nat) == spec_digits(m as nat).push((48 + (n as nat) % 10) as u8));
        assert(spec_digits(n as nat) =~= s.subrange(i, end));
    }
}

/// Two adjacent subranges concatenate to the enclosing one.
proof fn lemma_subrange_join(s: Seq<u8>, i: int, j: int, end: int)
    requires
        0 <= i <= j <= end <= s.len(),
    ensures
        s.subrange(i, end) == s.subrange(i, j) + s.subrange(j, end),
{
    assert forall|k: int| 0 <= k < end - i implies s.subrange(i, end)[k] == (s.subrange(i, j)
        + s.subrange(j, end))[k] by {
        assert(s.subrange(i, end)[k] == s[i + k]);
        if k < j - i {
            assert(s.subrange(i, j)[k] == s[i + k]);
        } else {
            assert(s.subrange(j, end)[k - (j - i)] == s[j + (k - (j - i))]);
        }
    };
    assert(s.subrange(i, end) =~= s.subrange(i, j) + s.subrange(j, end));
}

/// Dropping a leading element shifts the suffix encoder by one.
proof fn lemma_encode_items_shift(v: BencodeSpec, w: Seq<BencodeSpec>, k: int)
    requires
        0 <= k <= w.len(),
    ensures
        spec_encode_items(seq![v] + w, k + 1) == spec_encode_items(w, k),
    decreases w.len() - k,
{
    if k < w.len() {
        lemma_encode_items_shift(v, w, k + 1);
        assert((seq![v] + w)[k + 1] == w[k]);
    }
}

proof fn lemma_encode_pairs_shift(
    p: (Seq<u8>, BencodeSpec),
    w: Seq<(Seq<u8>, BencodeSpec)>,
    k: int,
)
    requires
        0 <= k <= w.len(),
    ensures
        spec_encode_pairs(seq![p] + w, k + 1) == spec_encode_pairs(w, k),
    decreases w.len() - k,
{
    if k < w.len() {
        lemma_encode_pairs_shift(p, w, k + 1);
        assert((seq![p] + w)[k + 1] == w[k]);
    }
}

proof fn lemma_digits_end_props(s: Seq<u8>, i: int)
    requires
        0 <= i <= s.len(),
    ensures
        i <= spec_digits_end(s, i) <= s.len(),
        forall|k: int| i <= k < spec_digits_end(s, i) ==> is_digit(s[k]),
        spec_digits_end(s, i) == s.len() || !is_digit(s[spec_digits_end(s, i)]),
    decreases s.len() - i,
{
    if i < s.len() && is_digit(s[i]) {
        lemma_digits_end_props(s, i + 1);
    }
}

/// A successful decode sits inside the input: it starts in range and
/// ends past its start, no later than the input's end.
pub proof fn lemma_decode_bounds(s: Seq<u8>, i: int)
    ensures
        match spec_decode_at(s, i) {
            Some((v, end)) => 0 <= i < end <= s.len(),
            None => true,
        },
    decreases s.len() - i, 0int, 0int,
{
    if 0 <= i < s.len() {
        if s[i] == 105 {
            let neg = i + 1 < s.len() && s[i + 1] == 45;
            let d0 = if neg {
                i + 2
            } else {
                i + 1
            };
            lemma_digits_end_props(s, d0);
        } else if is_digit(s[i]) {
            lemma_digits_end_props(s, i);
            let de = spec_digits_end(s, i);
            lemma_digits_val_nonneg(s, i, de);
        } else if s[i] == 108 {
            lemma_decode_items_bounds(s, i + 1);
        } else if s[i] == 100 {
            lemma_decode_pairs_bounds(s, i + 1);
        }
    }
}

proof fn lemma_decode_items_bounds(s: Seq<u8>, i: int)
    ensures
        match spec_decode_items(s, i) {
            Some((vs, end)) => 0 <= i < end <= s.len(),
            None => true,
        },
    decreases s.len() - i, 1int, 0int,
{
    if 0 <= i < s.len() && s[i] != 101 {
        lemma_decode_bounds(s, i);
        match spec_decode_at(s, i) {
            Some((v, j)) => {
                if i < j <= s.len() {
                    lemma_decode_items_bounds(s, j);
                }
            },
            None => {},
        }
    }
}

proof fn lemma_decode_pairs_bounds(s: Seq<u8>, i: int)
    ensures
        match spec_decode_pairs(s, i) {
            Some((ps, end)) => 0 <= i < end <= s.len(),
            None => true,
        },
    decreases s.len() - i, 1int, 0int,
{
    if 0 <= i < s.len() && s[i] != 101 {
        lemma_decode_bounds(s, i);
        match spec_decode_at(s, i) {
            Some((k, j)) => {
                if i < j <= s.len() {
                    lemma_decode_bounds(s, j);
                    match spec_decode_at(s, j) {
                        Some((v, j2)) => {
                            if j < j2 <= s.len() {
                                lemma_decode_pairs_bounds(s, j2);
                            }
                        },
                        None => {},
                    }
                }
            },
            None => {},
        }
    }
}

/// Re-encoding what was decoded at a canonical position reproduces the
/// consumed bytes exactly, byte layout and dictionary key order
/// included. This is what keeps the info-hash of a canonically encoded
/// torrent file equal to the digest of its original bytes.
pub proof fn lemma_decode_encode(s: Seq<u8>, i: int, v: BencodeSpec, end: int)
    requires
        spec_decode_at(s, i) == Some((v, end)),
        canonical_at(s, i),
    ensures
        spec_encode(v) == s.subrange(i, end),
    decreases s.len() - i, 0int, 0int,
{
    lemma_decode_bounds(s, i);
    assert(0 <= i < s.len());
    if s[i] == 105 {  // 'i'
        let neg = i + 1 < s.len() && s[i + 1] == 45;
        let d0 = if neg {
            i + 2
        } else {
            i + 1
        };
        let de = spec_digits_end(s, d0);
        let m = spec_digits_val(s, d0, de);
        lemma_digits_end_props(s, d0);
        lemma_digits_val_nonneg(s, d0, de);
        lemma_digits_canonical(s, d0, de);
        lemma_subrange_join(s, i, d0, end);
        lemma_subrange_join(s, d0, de, end);
        assert(s.subrange(de, end) =~= seq![101u8]);
        let n = if neg {
            -m
        } else {
            m
        };
        if neg {
            assert(m != 0);
            assert(n < 0);
            assert(s.subrange(i, d0) =~= seq![105u8, 45u8]);
            assert(spec_int_bytes(n) == seq![45u8] + spec_digits(m as nat));
            assert(seq![105u8, 45u8] =~= seq![105u8] + seq![45u8]);
            assert(spec_encode(v) =~= s.subrange(i, d0) + (s.subrange(d0, de) + s.subrange(
                de,
                end,
            )));
        } else {
            assert(s.subrange(i, d0) =~= seq![105u8]);
            assert(spec_int_bytes(n) == spec_digits(m as nat));
            assert(spec_encode(v) =~= s.subrange(i, d0) + (s.subrange(d0, de) + s.subrange(
                de,
                end,
            )));
        }
        assert(spec_encode(v) =~= s.subrange(i, end));
    } else if is_digit(s[i]) {
        let de = spec_digits_end(s, i);
        let n = spec_digits_val(s, i, de);
        lemma_digits_end_props(s, i);
        lemma_digits_val_nonneg(s, i, de);
        lemma_digits_canonical(s, i, de);
        let b = s.subrange(de + 1, end);
        assert(b.len() == n);
        lemma_subrange_join(s, i, de, end);
        lemma_subrange_join(s, de, de + 1, end);
        assert(s.subrange(de, de + 1) =~= seq![58u8]);
        assert(spec_encode(v) == spec_digits(b.len()) + seq![58u8] + b);
        assert(spec_encode(v) =~= s.subrange(i, de) + (s.subrange(de, de + 1) + s.subrange(
            de + 1,
            end,
        )));
        assert(spec_encode(v) =~= s.subrange(i, end));
    } else if s[i] == 108 {  // 'l'
        match spec_decode_items(s, i + 1) {
            Some((vs, e)) => {
                lemma_canon_items(s, i + 1, vs, end);
                lemma_subrange_join(s, i, i + 1, end);
                assert(s.subrange(i, i + 1) =~= seq![108u8]);
                assert(spec_encode(v) =~= s.subrange(i, i + 1) + (spec_encode_items(vs, 0)
                    + seq![101u8]));
                assert(spec_encode(v) =~= s.subrange(i, end));
            },
            None => {
                assert(false);
            },
        }
    } else {  // 'd'
        assert(s[i] == 100);
        match spec_decode_pairs(s, i + 1) {
            Some((ps, e)) => {
                lemma_canon_pairs(s, i + 1, ps, end);
                lemma_subrange_join(s, i, i + 1, end);
                assert(s.subrange(i, i + 1) =~= seq![100u8]);
                assert(spec_encode(v) =~= s.subrange(i, i + 1) + (spec_encode_pairs(ps, 0)
                    + seq![101u8]));
                assert(spec_encode(v) =~= s.subrange(i, end));
            },
            None => {
                assert(false);
            },
        }
    }
}

proof fn lemma_canon_items(s: Seq<u8>, i: int, vs: Seq<BencodeSpec>, end: int)
    requires
        spec_decode_items(s, i) == Some((vs, end)),
        canonical_items(s, i),
    ensures
        s.subrange(i, end) == spec_encode_items(vs, 0) + seq![101u8],
    decreases s.len() - i, 1int, 0int,
{
    lemma_decode_items_bounds(s, i);
    assert(0 <= i < end <= s.len());
    if s[i] == 101 {
        assert(s.subrange(i, end) =~= seq![101u8]);
        assert(spec_encode_items(vs, 0) + seq![101u8] =~= seq![101u8]);
    } else {
        match spec_decode_at(s, i) {
            Some((v0, j)) => {
                if j <= i || j > s.len() {
                    assert(spec_decode_items(s, i) is None);
                }
                assert(i < j <= s.len());
                assert(canonical_at(s, i) && canonical_items(s, j));
                match spec_decode_items(s, j) {
                    Some((vs2, e2)) => {
                        assert(vs == seq![v0] + vs2 && end == e2);
                        lemma_decode_items_bounds(s, j);
                        lemma_decode_encode(s, i, v0, j);
                        lemma_canon_items(s, j, vs2, end);
                        lemma_subrange_join(s, i, j, end);
                        assert(vs[0] == v0);
                        lemma_encode_items_shift(v0, vs2, 0);
                        assert(spec_encode_items(vs, 0) == spec_encode(v0) + spec_encode_items(
                            vs2,
                            0,
                        ));
                        assert(s.subrange(i, end) =~= spec_encode_items(vs, 0) + seq![101u8]);
                    },
                    None => {
                        assert(false);
                    },
                }
            },
            None => {
                assert(false);
            },
        }
    }
}

proof fn lemma_canon_pairs(s: Seq<u8>, i: int, ps: Seq<(Seq<u8>, BencodeSpec)>, end: int)
    requires
        spec_decode_pairs(s, i) == Some((ps, end)),
        canonical_pairs(s, i),
    ensures
        s.subrange(i, end) == spec_encode_pairs(ps, 0) + seq![101u8],
    decreases s.len() - i, 1int, 0int,
{
    lemma_decode_pairs_bounds(s, i);
    assert(0 <= i < end <= s.len());
    if s[i] == 101 {
        assert(s.subrange(i, end) =~= seq![101u8]);
        assert(spec_encode_pairs(ps, 0) + seq![101u8] =~= seq![101u8]);
    } else {
        match spec_decode_at(s, i) {
            Some((k0, j)) => {
                match k0 {
                    BencodeSpec::Bytes(kb) => {
                        if j <= i || j > s.len() {
                            assert(spec_decode_pairs(s, i) is None);
                        }
                        assert(i < j <= s.len());
                        match spec_decode_at(s, j) {
                            Some((v0, j2)) => {
                                if j2 <= j || j2 > s.len() {
                                    assert(spec_decode_pairs(s, i) is None);
                                }
                                assert(j < j2 <= s.len());
                                assert(canonical_at(s, i) && canonical_at(s, j)
                                    && canonical_pairs(s, j2));
                                match spec_decode_pairs(s, j2) {
                                    Some((ps2, e2)) => {
                                        assert(ps == seq![(kb, v0)] + ps2 && end == e2);
                                        lemma_decode_pairs_bounds(s, j2);
                                        lemma_decode_encode(s, i, k0, j);
                                        lemma_decode_encode(s, j, v0, j2);
                                        lemma_canon_pairs(s, j2, ps2, end);
                                        lemma_subrange_join(s, i, j, end);
                                        lemma_subrange_join(s, j, j2, end);
                                        assert(ps[0] == (kb, v0));
                                        lemma_encode_pairs_shift((kb, v0), ps2, 0);
                                        assert(spec_encode_pairs(ps, 0) == spec_digits(kb.len())
                                            + seq![58u8] + kb + spec_encode(v0)
                                            + spec_encode_pairs(ps2, 0));
                                        assert(spec_encode(k0) == spec_digits(kb.len())
                                            + seq![58u8] + kb);
                                        assert(s.subrange(i, end) =~= spec_encode_pairs(ps, 0)
                                            + seq![101u8]);
                                    },
                                    None => {
                                        assert(false);
                                    },
                                }
                            },
                            None => {
                                assert(false);
                            },
                        }
                    },
                    _ => {
                        assert(false);
                    },
                }
            },
            None => {
                assert(false);
            },
        }
    }
}

/// No two distinct values share an encoding: the format is
/// self-describing enough that the encoder never conflates values.
pub proof fn lemma_encode_injective(a: BencodeSpec, b: BencodeSpec)
    requires
        wf_value(a),
        wf_value(b),
        spec_encode(a) == spec_encode(b),
    ensures
        a == b,
{
    lemma_round_trip(a);
    lemma_round_trip(b);
}

/// The shared contract of the decoding functions: on success the value
/// and the end position match `spec_decode_at`; on failure that spec
/// yields nothing and the error is `MalformedEncoding`.
pub open spec fn decode_post(s: Seq<u8>, pos: int, r: Result<(Bencode, usize), TorrentError>) -> bool {
    match r {
        Ok((v, end)) => spec_decode_at(s, pos) == Some((v@, end as int)) && pos < end <= s.len(),
        Err(e) => spec_decode_at(s, pos) is None && e == TorrentError::MalformedEncoding,
    }
}

/// Decodes the integer production `i<digits>e` at `pos`, where the
/// dispatch byte is `i`. The digits may carry leading zeros; a sign is
/// accepted; the value must fit in a signed 64-bit word.
pub fn number_parser(input: &[u8], pos: usize) -> (r: Result<(Bencode, usize), TorrentError>)
    requires
        pos < input.len(),
        input@[pos as int] == 105,
    ensures
        decode_post(input@, pos as int, r),
{
    let neg = pos + 1 < input.len() && input[pos + 1] == 45;
    let d0 = if neg {
        pos + 2
    } else {
        pos + 1
    };
    let de = scan_digits(input, d0);
    if de == d0 || de >= input.len() || input[de] != 101 {
        return Err(TorrentError::MalformedEncoding);
    }
    let limit: u64 = if neg {
        9223372036854775808u64
    } else {
        9223372036854775807u64
    };
    match digits_value_upto(input, d0, de, limit) {
        None => Err(TorrentError::MalformedEncoding),
        Some(m) => {
            let v: i64 = if neg {
                if m == 9223372036854775808u64 {
                    i64::MIN
                } else {
                    -(m as i64)
                }
            } else {
                m as i64
            };
            Ok((Bencode::Int(v), de + 1))
        },
    }
}

/// Decodes the byte-string production `<digits>:<bytes>` at `pos`,
/// where the dispatch byte is a digit. The payload is read as raw
/// bytes, whatever they hold.
pub fn string_parser(input: &[u8], pos: usize) -> (r: Result<(Bencode, usize), TorrentError>)
    requires
        pos < input.len(),
        is_digit(input@[pos as int]),
    ensures
        decode_post(input@, pos as int, r),
{
    let de = scan_digits(input, pos);
    if de >= input.len() || input[de] != 58 {
        return Err(TorrentError::MalformedEncoding);
    }
    match digits_value_upto(input, pos, de, input.len() as u64) {
        None => Err(TorrentError::MalformedEncoding),
        Some(n64) => {
            let n = n64 as usize;
            if n > input.len() - (de + 1) {
                return Err(TorrentError::MalformedEncoding);
            }
            let bytes = slice_to_vec(slice_subrange(input, de + 1, de + 1 + n));
            Ok((Bencode::Bytes(bytes), de + 1 + n))
        },
    }
}

/// Decodes the list production `l...e` at `pos`, where the dispatch
/// byte is `l`: nested values until the terminator.
pub fn list_parser(input: &[u8], pos: usize) -> (r: Result<(Bencode, usize), TorrentError>)
    requires
        pos < input.len(),
        input@[pos as int] == 108,
    ensures
        decode_post(input@, pos as int, r),
    decreases input.len() - pos, 0int,
{
    let ghost s = input@;
    let mut items: Vec<Bencode> = Vec::new();
    let mut cur = pos + 1;
    proof {
        assert(models_of(items@, 0) =~= Seq::<BencodeSpec>::empty());
        match spec_decode_items(s, pos + 1) {
            Some((vs, e)) => {
                assert(models_of(items@, 0) + vs =~= vs);
            },
            None => {},
        }
    }
    while cur < input.len() && input[cur] != 101
        invariant
            pos < cur <= input.len(),
            s == input@,
            pos < s.len() && s[pos as int] == 108,
            spec_decode_items(s, pos + 1) == (match spec_decode_items(s, cur as int) {
                None => None::<(Seq<BencodeSpec>, int)>,
                Some((vs, e)) => Some((models_of(items@, 0) + vs, e)),
            }),
        decreases input.len() - cur,
    {
        match decode_value(input, cur) {
            Err(e) => {
                return Err(e);
            },
            Ok((v, j)) => {
                let ghost old_ms = models_of(items@, 0);
                let ghost old_items_seq = items@;
                let ghost vm = v@;
                items.push(v);
                proof {
                    lemma_models_of(old_items_seq, 0);
                    lemma_models_of(items@, 0);
                    assert(models_of(items@, 0) =~= old_ms.push(vm));
                    match spec_decode_items(s, j as int) {
                        Some((vs, e)) => {
                            assert(old_ms + (seq![vm] + vs) =~= old_ms.push(vm) + vs);
                        },
                        None => {},
                    }
                }
                cur = j;
            },
        }
    }
    if cur >= input.len() {
        return Err(TorrentError::MalformedEncoding);
    }
    proof {
        let ghost ms = models_of(items@, 0);
        assert(spec_decode_items(s, cur as int) == Some(
            (Seq::<BencodeSpec>::empty(), cur + 1),
        ));
        assert(ms + Seq::<BencodeSpec>::empty() =~= ms);
    }
    Ok((Bencode::List(items), cur + 1))
}

/// Decodes the dictionary production `d...e` at `pos`, where the
/// dispatch byte is `d`: byte-string keys alternating with values
/// until the terminator, kept in input order.
pub fn dictionary_parser(input: &[u8], pos: usize) -> (r: Result<(Bencode, usize), TorrentError>)
    requires
        pos < input.len(),
        input@[pos as int] == 100,
    ensures
        decode_post(input@, pos as int, r),
    decreases input.len() - pos, 0int,
{
    let ghost s = input@;
    let mut pairs: Vec<(Vec<u8>, Bencode)> = Vec::new();
    let mut cur = pos + 1;
    proof {
        assert(pair_models_of(pairs@, 0) =~= Seq::<(Seq<u8>, BencodeSpec)>::empty());
        match spec_decode_pairs(s, pos + 1) {
            Some((ps, e)) => {
                assert(pair_models_of(pairs@, 0) + ps =~= ps);
            },
            None => {},
        }
    }
    while cur < input.len() && input[cur] != 101
        invariant
            pos < cur <= input.len(),
            s == input@,
            pos < s.len() && s[pos as int] == 100,
            spec_decode_pairs(s, pos + 1) == (match spec_decode_pairs(s, cur as int) {
                None => None::<(Seq<(Seq<u8>, BencodeSpec)>, int)>,
                Some((ps, e)) => Some((pair_models_of(pairs@, 0) + ps, e)),
            }),
        decreases input.len() - cur,
    {
        match decode_value(input, cur) {
            Err(e) => {
                return Err(e);
            },
            Ok((kv, j)) => match kv {
                Bencode::Bytes(kb) => {
                    match decode_value(input, j) {
                        Err(e) => {
                            return Err(e);
                        },
                        Ok((v, j2)) => {
                            let ghost old_ps = pair_models_of(pairs@, 0);
                            let ghost old_pairs_seq = pairs@;
                            let ghost kbm = kb@;
                            let ghost vm = v@;
                            pairs.push((kb, v));
                            proof {
                                lemma_pair_models_of(old_pairs_seq, 0);
                                lemma_pair_models_of(pairs@, 0);
                                assert(pair_models_of(pairs@, 0) =~= old_ps.push((kbm, vm)));
                                match spec_decode_pairs(s, j2 as int) {
                                    Some((ps, e)) => {
                                        assert(old_ps + (seq![(kbm, vm)] + ps) =~= old_ps.push(
                                            (kbm, vm),
                                        ) + ps);
                                    },
                                    None => {},
                                }
                            }
                            cur = j2;
                        },
                    }
                },
                _ => {
                    proof {
                        assert(!(kv@ is Bytes));
                    }
                    return Err(TorrentError::MalformedEncoding);
                },
            },
        }
    }
    if cur >= input.len() {
        return Err(TorrentError::MalformedEncoding);
    }
    proof {
        let ghost ps0 = pair_models_of(pairs@, 0);
        assert(spec_decode_pairs(s, cur as int) == Some(
            (Seq::<(Seq<u8>, BencodeSpec)>::empty(), cur + 1),
        ));
        assert(ps0 + Seq::<(Seq<u8>, BencodeSpec)>::empty() =~= ps0);
    }
    Ok((Bencode::Dict(pairs), cur + 1))
}

/// Decodes one bencoded value starting at position `pos` of `input`,
/// dispatching on the first byte, and returns the value together with
/// the position one past its encoding. Fails with `MalformedEncoding`
/// exactly when the grammar does not match there.
pub fn decode_value(input: &[u8], pos: usize) -> (r: Result<(Bencode, usize), TorrentError>)
    ensures
        decode_post(input@, pos as int, r),
    decreases input.len() - pos, 1int,
{
    if pos >= input.len() {
        return Err(TorrentError::MalformedEncoding);
    }
    let b0 = input[pos];
    if b0 == 105 {  // 'i'
        number_parser(input, pos)
    } else if 48 <= b0 && b0 <= 57 {
        string_parser(input, pos)
    } else if b0 == 108 {  // 'l'
        list_parser(input, pos)
    } else if b0 == 100 {  // 'd'
        dictionary_parser(input, pos)
    } else {
        Err(TorrentError::MalformedEncoding)
    }
}

/// Decodes one value from the start of `data`, returning it with the
/// number of bytes consumed.
pub fn decode(data: &[u8]) -> (r: Result<(Bencode, usize), TorrentError>)
    ensures
        decode_post(data@, 0, r),
{
    decode_value(data, 0)
}

/// Decodes one value from the start of `data`, dropping the consumed
/// count.
pub fn decode_bencoded_value(data: &[u8]) -> (r: Result<Bencode, TorrentError>)
    ensures
        match r {
            Ok(v) => exists|end: int| spec_decode_at(data@, 0) == Some((v@, end)),
            Err(e) => spec_decode_at(data@, 0) is None && e == TorrentError::MalformedEncoding,
        },
{
    match decode_value(data, 0) {
        Ok((v, _end)) => Ok(v),
        Err(e) => Err(e),
    }
}


/// Appends every byte of `bytes` to `out`, in order.
pub fn push_bytes(out: &mut Vec<u8>, bytes: &[u8])
    ensures
        final(out)@ == old(out)@ + bytes@,
{
    let ghost base = out@;
    let mut k: usize = 0;
    while k < bytes.len()
        invariant
            k <= bytes.len(),
            out@ == base + bytes@.subrange(0, k as int),
        decreases bytes.len() - k,
    {
        out.push(bytes[k]);
        proof {
            assert(out@ =~= base + bytes@.subrange(0, k + 1));
        }
        k = k + 1;
    }
    proof {
        assert(bytes@.subrange(0, bytes@.len() as int) =~= bytes@);
    }
}

/// Appends the decimal digits of `n` to `out`, most significant first.
fn push_digits(out: &mut Vec<u8>, n: u64)
    ensures
        final(out)@ == old(out)@ + spec_digits(n as nat),
    decreases n,
{
    if n < 10 {
        out.push(48 + n as u8);
        proof {
            assert(out@ =~= old(out)@ + spec_digits(n as nat));
        }
    } else {
        push_digits(out, n / 10);
        out.push(48 + (n % 10) as u8);
        proof {
            assert(out@ =~= old(out)@ + spec_digits(n as nat));
        }
    }
}

/// Appends the bencoding of `v` to `out`.
pub fn encode_into(v: &Bencode, out: &mut Vec<u8>)
    ensures
        final(out)@ == old(out)@ + spec_encode(v@),
    decreases v@,
{
    match v {
        Bencode::Int(n) => {
            out.push(105);
            if *n < 0 {
                out.push(45);
                let m: u64 = if *n == i64::MIN {
                    9223372036854775808u64
                } else {
                    (-(*n)) as u64
                };
                push_digits(out, m);
            } else {
                push_digits(out, *n as u64);
            }
            out.push(101);
            proof {
                assert(out@ =~= old(out)@ + spec_encode(v@));
            }
        },
        Bencode::Bytes(b) => {
            push_digits(out, b.len() as u64);
            out.push(58);
            push_bytes(out, b.as_slice());
            proof {
                assert(out@ =~= old(out)@ + spec_encode(v@));
            }
        },
        Bencode::List(items) => {
            out.push(108);
            let ghost ms = models_of(items@, 0);
            let ghost base = out@;
            proof {
                lemma_models_of(items@, 0);
            }
            let mut k: usize = 0;
            while k < items.len()
                invariant
                    k <= items.len(),
                    ms == models_of(items@, 0),
                    v@ == BencodeSpec::List(ms),
                    ms.len() == items@.len(),
                    forall|i: int| 0 <= i < items@.len() ==> ms[i] == items@[i].model(),
                    out@ + spec_encode_items(ms, k as int) == base + spec_encode_items(ms, 0),
                decreases items.len() - k,
            {
                let ghost prev = out@;
                let item = &items[k];
                proof {
                    match v@ {
                        BencodeSpec::List(ms2) => {
                            assert(decreases_to!(v@ => ms2));
                            assert(decreases_to!(ms2 => ms2[k as int]));
                            assert(decreases_to!(v@ => items@[k as int]@));
                        },
                        _ => {
                            assert(false);
                        },
                    }
                }
                encode_into(item, out);
                proof {
                    assert((prev + spec_encode(ms[k as int])) + spec_encode_items(ms, k + 1)
                        =~= prev + (spec_encode(ms[k as int]) + spec_encode_items(ms, k + 1)));
                }
                k = k + 1;
            }
            out.push(101);
            proof {
                assert(spec_encode_items(ms, ms.len() as int) =~= Seq::<u8>::empty());
                assert(base + spec_encode_items(ms, 0) =~= base + spec_encode_items(ms, 0)
                    + Seq::<u8>::empty());
                assert(out@ =~= old(out)@ + spec_encode(v@));
            }
        },
        Bencode::Dict(pairs) => {
            out.push(100);
            let ghost ps = pair_models_of(pairs@, 0);
            let ghost base = out@;
            proof {
                lemma_pair_models_of(pairs@, 0);
            }
            let mut k: usize = 0;
            while k < pairs.len()
                invariant
                    k <= pairs.len(),
                    ps == pair_models_of(pairs@, 0),
                    v@ == BencodeSpec::Dict(ps),
                    ps.len() == pairs@.len(),
                    forall|i: int|
                        0 <= i < pairs@.len() ==> ps[i] == (pairs@[i].0@, pairs@[i].1.model()),
                    out@ + spec_encode_pairs(ps, k as int) == base + spec_encode_pairs(ps, 0),
                decreases pairs.len() - k,
            {
                let ghost prev = out@;
                let pair = &pairs[k];
                push_digits(out, pair.0.len() as u64);
                out.push(58);
                push_bytes(out, pair.0.as_slice());
                proof {
                    match v@ {
                        BencodeSpec::Dict(ps2) => {
                            assert(decreases_to!(v@ => ps2));
                            assert(decreases_to!(ps2 => ps2[k as int]));
                            assert(decreases_to!(ps2[k as int] => ps2[k as int].1));
                            assert(decreases_to!(v@ => pairs@[k as int].1@));
                        },
                        _ => {
                            assert(false);
                        },
                    }
                }
                encode_into(&pair.1, out);
                proof {
                    let ghost step = spec_digits(ps[k as int].0.len()) + seq![58u8]
                        + ps[k as int].0 + spec_encode(ps[k as int].1);
                    assert(out@ =~= prev + step);
                    assert((prev + step) + spec_encode_pairs(ps, k + 1) =~= prev + (step
                        + spec_encode_pairs(ps, k + 1)));
                    assert(step + spec_encode_pairs(ps, k + 1) =~= spec_encode_pairs(
                        ps,
                        k as int,
                    ));
                }
                k = k + 1;
            }
            out.push(101);
            proof {
                assert(spec_encode_pairs(ps, ps.len() as int) =~= Seq::<u8>::empty());
                assert(base + spec_encode_pairs(ps, 0) =~= base + spec_encode_pairs(ps, 0)
                    + Seq::<u8>::empty());
                assert(out@ =~= old(out)@ + spec_encode(v@));
            }
        },
    }
}

/// The bencoding of `v`, as fresh bytes.
pub fn encode(v: &Bencode) -> (r: Vec<u8>)
    ensures
        r@ == spec_encode(v@),
{
    let mut out: Vec<u8> = Vec::new();
    encode_into(v, &mut out);
    proof {
        assert(out@ =~= spec_encode(v@));
    }
    out
}

} // verus!
