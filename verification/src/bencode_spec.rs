//! Mathematical model of the bencode grammar.
//!
//! `SpecBencode` is the abstract form of a bencode term; `spec_encode` gives
//! the one byte sequence a term serializes to, and `spec_decode` gives the
//! result of reading one term off the front of a byte sequence: the term and
//! the unconsumed remainder, or the decode error. The executable codec is
//! specified against these functions.

use vstd::prelude::*;

verus! {

/// Abstract bencode term: byte-string, signed integer, ordered list, or
/// ordered key-value mapping whose encounter order is significant.
pub enum SpecBencode {
    String(Seq<u8>),
    Integer(int),
    List(Seq<SpecBencode>),
    Dictionary(Seq<(Seq<u8>, SpecBencode)>),
}

/// Why a byte sequence does not begin with a well-formed bencode term.
#[derive(Clone, Copy, PartialEq, Eq, Debug)]
pub enum DecodeError {
    /// The input ended before the term did.
    Truncated,
    /// A byte-string length prefix is not digits followed by a colon.
    BadLengthPrefix,
    /// An integer is empty or holds a byte that is not a decimal digit.
    BadInteger,
    /// An integer other than `0` starts with the digit zero.
    LeadingZero,
    /// The integer is written `-0`.
    MinusZero,
    /// The integer does not fit a signed 64-bit word.
    IntegerOverflow,
    /// A dictionary key is not a byte-string.
    NonStringKey,
    /// The leading byte is no recognized term tag.
    UnknownTag,
}

/// ASCII `0`.
pub const DIGIT_ZERO: u8 = 48;

/// ASCII `9`.
pub const DIGIT_NINE: u8 = 57;

/// ASCII `:`, ending a byte-string length prefix.
pub const COLON: u8 = 58;

/// ASCII `-`, the integer sign.
pub const MINUS: u8 = 45;

/// ASCII `i`, opening an integer term.
pub const TAG_INTEGER: u8 = 105;

/// ASCII `l`, opening a list term.
pub const TAG_LIST: u8 = 108;

/// ASCII `d`, opening a dictionary term.
pub const TAG_DICTIONARY: u8 = 100;

/// ASCII `e`, closing an integer, list, or dictionary term.
pub const TERM_END: u8 = 101;

/// True when a byte is an ASCII decimal digit.
pub open spec fn is_digit_byte(b: u8) -> bool {
    DIGIT_ZERO <= b <= DIGIT_NINE
}

/// Numeric value of an ASCII decimal digit byte.
pub open spec fn digit_val(b: u8) -> int {
    b - DIGIT_ZERO
}

/// Decimal digit bytes of a non-negative number, most significant first,
/// without leading zeros (`0` itself is the single byte `0`).
pub open spec fn dec_digits(n: nat) -> Seq<u8>
    decreases n,
{
    if n < 10 {
        seq![(DIGIT_ZERO + n) as u8]
    } else {
        dec_digits(n / 10).push((DIGIT_ZERO + n % 10) as u8)
    }
}

/// Decimal bytes of a signed number: a minus sign before the digits of its
/// magnitude when it is negative.
pub open spec fn int_literal(i: int) -> Seq<u8> {
    if i < 0 {
        seq![MINUS] + dec_digits((-i) as nat)
    } else {
        dec_digits(i as nat)
    }
}

/// Value of a run of decimal digit bytes, most significant first.
pub open spec fn dec_val(ds: Seq<u8>) -> int
    decreases ds.len(),
{
    if ds.len() == 0 {
        0
    } else {
        dec_val(ds.drop_last()) * 10 + digit_val(ds.last())
    }
}

/// Longest prefix of `s` made of decimal digit bytes.
pub open spec fn digits_prefix(s: Seq<u8>) -> Seq<u8>
    decreases s.len(),
{
    if s.len() > 0 && is_digit_byte(s[0]) {
        seq![s[0]] + digits_prefix(s.drop_first())
    } else {
        Seq::empty()
    }
}

/// The byte sequence a term serializes to.
pub open spec fn spec_encode(v: SpecBencode) -> Seq<u8>
    decreases v,
{
    match v {
        SpecBencode::String(s) => dec_digits(s.len()) + seq![COLON] + s,
        SpecBencode::Integer(i) => seq![TAG_INTEGER] + int_literal(i) + seq![TERM_END],
        SpecBencode::List(items) => seq![TAG_LIST] + spec_encode_items(items) + seq![TERM_END],
        SpecBencode::Dictionary(entries) => seq![TAG_DICTIONARY] + spec_encode_pairs(entries) + seq![TERM_END],
    }
}

/// Concatenated encodings of a run of terms.
pub open spec fn spec_encode_items(items: Seq<SpecBencode>) -> Seq<u8>
    decreases items,
{
    if items.len() == 0 {
        Seq::empty()
    } else {
        spec_encode(items[0]) + spec_encode_items(items.drop_first())
    }
}

/// Concatenated encodings of a run of key-value pairs, each key written as a
/// byte-string term, in stored order.
pub open spec fn spec_encode_pairs(entries: Seq<(Seq<u8>, SpecBencode)>) -> Seq<u8>
    decreases entries,
{
    if entries.len() == 0 {
        Seq::empty()
    } else {
        dec_digits(entries[0].0.len()) + seq![COLON] + entries[0].0 + spec_encode(entries[0].1)
            + spec_encode_pairs(entries.drop_first())
    }
}

/// True when some entry of the mapping carries key `k`.
pub open spec fn dict_has_key(entries: Seq<(Seq<u8>, SpecBencode)>, k: Seq<u8>) -> bool {
    exists|i: int| 0 <= i < entries.len() && entries[i].0 == k
}

/// Store `v` under `k`: an existing entry keeps its place and takes the new
/// value, a new key goes to the end.
pub open spec fn dict_put(
    entries: Seq<(Seq<u8>, SpecBencode)>,
    k: Seq<u8>,
    v: SpecBencode,
) -> Seq<(Seq<u8>, SpecBencode)>
    decreases entries.len(),
{
    if entries.len() == 0 {
        seq![(k, v)]
    } else if entries[0].0 == k {
        seq![(k, v)] + entries.drop_first()
    } else {
        seq![entries[0]] + dict_put(entries.drop_first(), k, v)
    }
}

/// The mapping built by storing a run of raw pairs one after the other in
/// encounter order.
pub open spec fn dict_fold(raw: Seq<(Seq<u8>, SpecBencode)>) -> Seq<(Seq<u8>, SpecBencode)>
    decreases raw.len(),
{
    if raw.len() == 0 {
        Seq::empty()
    } else {
        dict_put(dict_fold(raw.drop_last()), raw.last().0, raw.last().1)
    }
}

/// Read one term off the front of `s`: the term and the unconsumed remainder,
/// or the error that makes `s` begin with no term.
pub open spec fn spec_decode(s: Seq<u8>) -> Result<(SpecBencode, Seq<u8>), DecodeError>
    decreases s.len(), 0int,
{
    if s.len() == 0 {
        Err(DecodeError::Truncated)
    } else if is_digit_byte(s[0]) {
        spec_decode_string(s)
    } else if s[0] == TAG_INTEGER {
        spec_decode_integer(s)
    } else if s[0] == TAG_LIST {
        match spec_decode_items(s.drop_first()) {
            Ok((items, rest)) => Ok((SpecBencode::List(items), rest)),
            Err(e) => Err(e),
        }
    } else if s[0] == TAG_DICTIONARY {
        match spec_decode_pairs(s.drop_first()) {
            Ok((raw, rest)) => Ok((SpecBencode::Dictionary(dict_fold(raw)), rest)),
            Err(e) => Err(e),
        }
    } else {
        Err(DecodeError::UnknownTag)
    }
}

/// Byte-string term: decimal length, a colon, then that many payload bytes.
/// The first byte of `s` is a digit.
pub open spec fn spec_decode_string(s: Seq<u8>) -> Result<(SpecBencode, Seq<u8>), DecodeError> {
    let ds = digits_prefix(s);
    if ds.len() == s.len() {
        Err(DecodeError::Truncated)
    } else if s[ds.len() as int] != COLON {
        Err(DecodeError::BadLengthPrefix)
    } else {
        let n = dec_val(ds);
        let after = s.skip(ds.len() + 1int);
        if after.len() < n {
            Err(DecodeError::Truncated)
        } else {
            Ok((SpecBencode::String(after.take(n)), after.skip(n)))
        }
    }
}

/// Integer term: `i`, an optional minus sign, digits with no leading zero
/// (`0` alone, never `-0`), then `e`. The first byte of `s` is `i`.
pub open spec fn spec_decode_integer(s: Seq<u8>) -> Result<(SpecBencode, Seq<u8>), DecodeError> {
    let body = s.drop_first();
    if body.len() == 0 {
        Err(DecodeError::Truncated)
    } else {
        let neg = body[0] == MINUS;
        let unsigned = if neg {
            body.drop_first()
        } else {
            body
        };
        let ds = digits_prefix(unsigned);
        if ds.len() == 0 {
            if unsigned.len() == 0 {
                Err(DecodeError::Truncated)
            } else {
                Err(DecodeError::BadInteger)
            }
        } else if ds.len() == unsigned.len() {
            Err(DecodeError::Truncated)
        } else if unsigned[ds.len() as int] != TERM_END {
            Err(DecodeError::BadInteger)
        } else if ds.len() > 1 && ds[0] == DIGIT_ZERO {
            Err(DecodeError::LeadingZero)
        } else if neg && ds.len() == 1 && ds[0] == DIGIT_ZERO {
            Err(DecodeError::MinusZero)
        } else {
            let m = if neg {
                -dec_val(ds)
            } else {
                dec_val(ds)
            };
            if m < i64::MIN || m > i64::MAX {
                Err(DecodeError::IntegerOverflow)
            } else {
                Ok((SpecBencode::Integer(m), unsigned.skip(ds.len() + 1int)))
            }
        }
    }
}

/// Run of list items up to and including the closing `e`.
pub open spec fn spec_decode_items(s: Seq<u8>) -> Result<(Seq<SpecBencode>, Seq<u8>), DecodeError>
    decreases s.len(), 1int,
{
    if s.len() == 0 {
        Err(DecodeError::Truncated)
    } else if s[0] == TERM_END {
        Ok((Seq::empty(), s.drop_first()))
    } else {
        match spec_decode(s) {
            Ok((v, rest)) => if rest.len() < s.len() {
                match spec_decode_items(rest) {
                    Ok((items, rest2)) => Ok((seq![v] + items, rest2)),
                    Err(e) => Err(e),
                }
            } else {
                Err(DecodeError::Truncated)
            },
            Err(e) => Err(e),
        }
    }
}

/// Run of raw key-value pairs up to and including the closing `e`, in
/// encounter order, duplicates kept.
pub open spec fn spec_decode_pairs(s: Seq<u8>) -> Result<
    (Seq<(Seq<u8>, SpecBencode)>, Seq<u8>),
    DecodeError,
>
    decreases s.len(), 1int,
{
    if s.len() == 0 {
        Err(DecodeError::Truncated)
    } else if s[0] == TERM_END {
        Ok((Seq::empty(), s.drop_first()))
    } else {
        match spec_decode(s) {
            Ok((SpecBencode::String(k), rest)) => if rest.len() < s.len() {
                match spec_decode(rest) {
                    Ok((v, rest2)) => if rest2.len() < rest.len() {
                        match spec_decode_pairs(rest2) {
                            Ok((raw, rest3)) => Ok((seq![(k, v)] + raw, rest3)),
                            Err(e) => Err(e),
                        }
                    } else {
                        Err(DecodeError::Truncated)
                    },
                    Err(e) => Err(e),
                }
            } else {
                Err(DecodeError::Truncated)
            },
            Ok((_, _)) => Err(DecodeError::NonStringKey),
            Err(e) => Err(e),
        }
    }
}

impl SpecBencode {
    /// A term the decoder itself could have produced: integers fit a signed
    /// 64-bit word and every dictionary holds each key once.
    pub open spec fn wf(self) -> bool
        decreases self,
    {
        match self {
            SpecBencode::String(_) => true,
            SpecBencode::Integer(i) => i64::MIN <= i <= i64::MAX,
            SpecBencode::List(items) => forall|i: int| 0 <= i < items.len() ==> items[i].wf(),
            SpecBencode::Dictionary(entries) => {
                &&& forall|i: int, j: int|
                    0 <= i < j < entries.len() ==> entries[i].0 != entries[j].0
                &&& forall|i: int| 0 <= i < entries.len() ==> entries[i].1.wf()
            },
        }
    }
}

} // verus!
