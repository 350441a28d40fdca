//! Executable bencode terms and the codec over them.
//!
//! `Bencode` is the in-memory form of a decoded term. `decode_value` reads
//! one term off the front of a byte buffer and returns it with the
//! unconsumed remainder; `encode_value` is its inverse. Both are specified
//! against the spec-level grammar in `bencode_spec`.

use vstd::prelude::*;
use vstd::pervasive::VecAdditionalExecFns;

use crate::bencode_spec::{
    dec_digits, dict_fold, dict_has_key, dict_put, digit_val, digits_prefix, dec_val,
    is_digit_byte, spec_decode, spec_decode_integer, spec_decode_items, spec_decode_pairs,
    spec_decode_string, spec_encode, spec_encode_items, spec_encode_pairs, DecodeError,
    SpecBencode, COLON, DIGIT_NINE, DIGIT_ZERO, MINUS, TAG_DICTIONARY, TAG_INTEGER, TAG_LIST,
    TERM_END,
};

verus! {

/// A decoded bencode term. Dictionaries are ordered association lists of
/// byte-string keys, so that encounter order is kept and re-emitted
/// identically on encode.
#[derive(PartialEq, Eq, Debug)]
pub enum Bencode {
    String(Vec<u8>),
    Integer(i64),
    List(Vec<Bencode>),
    Dictionary(Vec<(Vec<u8>, Bencode)>),
}

impl View for Bencode {
    type V = SpecBencode;

    open spec fn view(&self) -> SpecBencode
        decreases self,
    {
        match self {
            Bencode::String(s) => SpecBencode::String(s@),
            Bencode::Integer(i) => SpecBencode::Integer(*i as int),
            Bencode::List(l) => SpecBencode::List(
                Seq::new(
                    l@.len(),
                    |i: int|
                        if 0 <= i < l@.len() {
                            l@[i].view()
                        } else {
                            SpecBencode::Integer(0)
                        },
                ),
            ),
            Bencode::Dictionary(d) => SpecBencode::Dictionary(
                Seq::new(
                    d@.len(),
                    |i: int|
                        if 0 <= i < d@.len() {
                            (d@[i].0@, d@[i].1.view())
                        } else {
                            (Seq::empty(), SpecBencode::Integer(0))
                        },
                ),
            ),
        }
    }
}

/// Append a copy of `s` to `out`.
pub(crate) fn push_bytes(out: &mut Vec<u8>, s: &[u8])
    ensures
        final(out)@ == old(out)@ + s@,
{
    let mut i: usize = 0;
    while i < s.len()
        invariant
            i <= s@.len(),
            out@ == old(out)@ + s@.take(i as int),
        decreases s@.len() - i,
    {
        let b: u8 = s[i];
        proof {
            assert(s@.take(i + 1) =~= s@.take(i as int).push(s@[i as int]));
        }
        out.push(b);
        i = i + 1;
    }
    proof {
        assert(s@.take(s@.len() as int) =~= s@);
    }
}

/// Append the decimal digits of `n` to `out`, most significant first.
pub(crate) fn push_decimal(out: &mut Vec<u8>, n: u64)
    ensures
        final(out)@ == old(out)@ + dec_digits(n as nat),
    decreases n,
{
    if n < 10 {
        out.push(DIGIT_ZERO + (n as u8));
        proof {
            assert(old(out)@.push((DIGIT_ZERO + n as nat) as u8) =~= old(out)@ + dec_digits(n as nat));
        }
    } else {
        push_decimal(out, n / 10);
        let ghost mid = out@;
        out.push(DIGIT_ZERO + ((n % 10) as u8));
        proof {
            assert(dec_digits(n as nat) == dec_digits((n as nat) / 10).push(
                (DIGIT_ZERO + (n as nat) % 10) as u8,
            ));
            assert((n / 10) as nat == (n as nat) / 10);
            assert(mid.push((DIGIT_ZERO + (n as nat) % 10) as u8) =~= old(out)@ + dec_digits(n as nat));
        }
    }
}

/// Append the encoding of `v` to `out`.
fn encode_into(v: &Bencode, out: &mut Vec<u8>)
    ensures
        final(out)@ == old(out)@ + spec_encode(v@),
    decreases *v,
{
    match v {
        Bencode::String(s) => {
            push_decimal(out, s.len() as u64);
            out.push(COLON);
            push_bytes(out, s.as_slice());
            proof {
                assert(out@ =~= old(out)@ + spec_encode(v@));
            }
        },
        Bencode::Integer(i) => {
            let i = *i;
            out.push(TAG_INTEGER);
            if i < 0 {
                out.push(MINUS);
                let mag: u64 = ((-(i + 1)) as u64) + 1;
                proof {
                    assert(mag as nat == (-(i as int)) as nat);
                }
                push_decimal(out, mag);
            } else {
                push_decimal(out, i as u64);
            }
            out.push(TERM_END);
            proof {
                assert(out@ =~= old(out)@ + spec_encode(v@));
            }
        },
        Bencode::List(l) => {
            out.push(TAG_LIST);
            let ghost items = Seq::new(l@.len(), |j: int| if 0 <= j < l@.len() { l@[j]@ } else { SpecBencode::Integer(0) });
            let mut idx: usize = 0;
            while idx < l.len()
                invariant
                    idx <= l@.len(),
                    *v == Bencode::List(*l),
                    items.len() == l@.len(),
                    forall|j: int| 0 <= j < l@.len() ==> items[j] == l@[j]@,
                    out@ == old(out)@ + seq![TAG_LIST] + spec_encode_items(items.take(idx as int)),
                decreases l@.len() - idx,
            {
                proof {
                    assert(decreases_to!(*v => (*v)->List_0));
                    assert(decreases_to!(*l => l@[idx as int]));
                }
                encode_into(&l[idx], out);
                proof {
                    crate::bencode_props::lemma_encode_items_snoc(items, idx as int);
                    assert(items.take(idx + 1) == items.take(idx as int + 1));
                }
                idx = idx + 1;
            }
            out.push(TERM_END);
            proof {
                assert(items.take(items.len() as int) =~= items);
                assert(v@ matches SpecBencode::List(_));
                assert(v@->List_0 =~= items);
                assert(v@ == SpecBencode::List(items));
                assert(out@ =~= old(out)@ + spec_encode(v@));
            }
        },
        Bencode::Dictionary(d) => {
            out.push(TAG_DICTIONARY);
            let ghost entries = Seq::new(d@.len(), |j: int| if 0 <= j < d@.len() { (d@[j].0@, d@[j].1@) } else { (Seq::empty(), SpecBencode::Integer(0)) });
            let mut idx: usize = 0;
            while idx < d.len()
                invariant
                    idx <= d@.len(),
                    *v == Bencode::Dictionary(*d),
                    entries.len() == d@.len(),
                    forall|j: int|
                        0 <= j < d@.len() ==> entries[j] == (d@[j].0@, d@[j].1@),
                    out@ == old(out)@ + seq![TAG_DICTIONARY] + spec_encode_pairs(entries.take(idx as int)),
                decreases d@.len() - idx,
            {
                let pair = &d[idx];
                push_decimal(out, pair.0.len() as u64);
                out.push(COLON);
                push_bytes(out, pair.0.as_slice());
                proof {
                    assert(decreases_to!(*v => (*v)->Dictionary_0));
                    assert(decreases_to!(*d => d@[idx as int]));
                    assert(decreases_to!(d@[idx as int] => d@[idx as int].1));
                }
                encode_into(&pair.1, out);
                proof {
                    crate::bencode_props::lemma_encode_pairs_snoc(entries, idx as int);
                    assert(entries[idx as int] == (d@[idx as int].0@, d@[idx as int].1@));
                }
                idx = idx + 1;
            }
            out.push(TERM_END);
            proof {
                assert(entries.take(entries.len() as int) =~= entries);
                reveal_with_fuel(<Bencode as View>::view, 2);
                assert(v@ matches SpecBencode::Dictionary(_));
                assert(v@->Dictionary_0 =~= entries);
                assert(v@ == SpecBencode::Dictionary(entries));
                assert(out@ =~= old(out)@ + spec_encode(v@));
            }
        },
    }
}

impl Bencode {
    /// Serialize the term: the structural inverse of `decode_value`.
    pub fn encode_value(&self) -> (r: Vec<u8>)
        ensures
            r@ == spec_encode(self@),
    {
        let mut out: Vec<u8> = Vec::new();
        encode_into(self, &mut out);
        out
    }
}

/// Structurally identical copy of a term.
fn clone_value(v: &Bencode) -> (r: Bencode)
    ensures
        r@ == v@,
    decreases *v,
{
    match v {
        Bencode::String(s) => Bencode::String(vstd::slice::slice_to_vec(s.as_slice())),
        Bencode::Integer(i) => Bencode::Integer(*i),
        Bencode::List(l) => {
            let mut out: Vec<Bencode> = Vec::new();
            let mut idx: usize = 0;
            while idx < l.len()
                invariant
                    idx <= l@.len(),
                    *v == Bencode::List(*l),
                    out@.len() == idx,
                    forall|j: int| 0 <= j < idx ==> out@[j]@ == l@[j]@,
                decreases l@.len() - idx,
            {
                proof {
                    assert(decreases_to!(*v => (*v)->List_0));
                    assert(decreases_to!(*l => l@[idx as int]));
                }
                out.push(clone_value(&l[idx]));
                idx = idx + 1;
            }
            let r = Bencode::List(out);
            proof {
                assert(r@ matches SpecBencode::List(_));
                assert(v@ matches SpecBencode::List(_));
                assert(r@->List_0 =~= v@->List_0);
                assert(r@ == SpecBencode::List(r@->List_0));
                assert(v@ == SpecBencode::List(v@->List_0));
            }
            r
        },
        Bencode::Dictionary(d) => {
            let mut out: Vec<(Vec<u8>, Bencode)> = Vec::new();
            let mut idx: usize = 0;
            while idx < d.len()
                invariant
                    idx <= d@.len(),
                    *v == Bencode::Dictionary(*d),
                    out@.len() == idx,
                    forall|j: int|
                        0 <= j < idx ==> out@[j].0@ == d@[j].0@ && out@[j].1@ == d@[j].1@,
                decreases d@.len() - idx,
            {
                let pair = &d[idx];
                proof {
                    assert(decreases_to!(*v => (*v)->Dictionary_0));
                    assert(decreases_to!(*d => d@[idx as int]));
                    assert(decreases_to!(d@[idx as int] => d@[idx as int].1));
                }
                out.push((vstd::slice::slice_to_vec(pair.0.as_slice()), clone_value(&pair.1)));
                idx = idx + 1;
            }
            let r = Bencode::Dictionary(out);
            proof {
                reveal_with_fuel(<Bencode as View>::view, 2);
                assert(r@ matches SpecBencode::Dictionary(_));
                assert(v@ matches SpecBencode::Dictionary(_));
                assert(r@->Dictionary_0 =~= v@->Dictionary_0);
                assert(r@ == SpecBencode::Dictionary(r@->Dictionary_0));
                assert(v@ == SpecBencode::Dictionary(v@->Dictionary_0));
            }
            r
        },
    }
}

impl Clone for Bencode {
    /// A clone is a structurally identical term.
    fn clone(&self) -> (res: Self)
        ensures
            res@ == self@,
    {
        clone_value(self)
    }
}

/// The spec terms of a run of executable terms.
pub open spec fn items_view(l: Seq<Bencode>) -> Seq<SpecBencode> {
    Seq::new(
        l.len(),
        |j: int|
            if 0 <= j < l.len() {
                l[j]@
            } else {
                SpecBencode::Integer(0)
            },
    )
}

/// The spec pairs of a run of executable key-value pairs.
pub open spec fn pairs_view(d: Seq<(Vec<u8>, Bencode)>) -> Seq<(Seq<u8>, SpecBencode)> {
    Seq::new(
        d.len(),
        |j: int|
            if 0 <= j < d.len() {
                (d[j].0@, d[j].1@)
            } else {
                (Seq::empty(), SpecBencode::Integer(0))
            },
    )
}

/// A list term's model is the list of its items' models.
pub proof fn lemma_list_view(l: Vec<Bencode>)
    ensures
        Bencode::List(l)@ == SpecBencode::List(items_view(l@)),
{
    reveal_with_fuel(<Bencode as View>::view, 2);
    assert(Bencode::List(l)@->List_0 =~= items_view(l@));
    assert(Bencode::List(l)@ == SpecBencode::List(Bencode::List(l)@->List_0));
}

/// A dictionary term's model is the list of its entries' models, in order.
pub proof fn lemma_dictionary_view(d: Vec<(Vec<u8>, Bencode)>)
    ensures
        Bencode::Dictionary(d)@ == SpecBencode::Dictionary(pairs_view(d@)),
{
    reveal_with_fuel(<Bencode as View>::view, 2);
    assert(Bencode::Dictionary(d)@->Dictionary_0 =~= pairs_view(d@));
    assert(Bencode::Dictionary(d)@ == SpecBencode::Dictionary(
        Bencode::Dictionary(d)@->Dictionary_0,
    ));
}

/// True when two byte slices hold the same bytes.
pub(crate) fn bytes_eq(a: &[u8], b: &[u8]) -> (r: bool)
    ensures
        r == (a@ == b@),
{
    if a.len() != b.len() {
        return false;
    }
    let mut i: usize = 0;
    while i < a.len()
        invariant
            i <= a@.len(),
            a@.len() == b@.len(),
            forall|j: int| 0 <= j < i ==> a@[j] == b@[j],
        decreases a@.len() - i,
    {
        if a[i] != b[i] {
            return false;
        }
        i = i + 1;
    }
    proof {
        assert(a@ =~= b@);
    }
    true
}

/// Value of the decimal digit run `input[start..end)`, or nothing when it
/// exceeds an unsigned 64-bit word.
pub(crate) fn parse_decimal(input: &[u8], start: usize, end: usize) -> (r: Option<u64>)
    requires
        start <= end <= input@.len(),
        forall|m: int| start <= m < end ==> is_digit_byte(input@[m]),
    ensures
        match r {
            Some(n) => n == dec_val(input@.subrange(start as int, end as int)),
            None => dec_val(input@.subrange(start as int, end as int)) > u64::MAX,
        },
{
    let ghost ds = input@.subrange(start as int, end as int);
    proof {
        assert(crate::bencode_props::all_digits(ds));
    }
    let mut acc: u64 = 0;
    let mut i: usize = start;
    while i < end
        invariant
            start <= i <= end <= input@.len(),
            ds == input@.subrange(start as int, end as int),
            crate::bencode_props::all_digits(ds),
            forall|m: int| start <= m < end ==> is_digit_byte(input@[m]),
            acc == dec_val(ds.take(i - start)),
        decreases end - i,
    {
        let b: u8 = input[i];
        let d: u64 = (b - DIGIT_ZERO) as u64;
        proof {
            assert(is_digit_byte(input@[i as int]));
            assert(d == digit_val(ds[i - start]));
            crate::bencode_props::lemma_dec_val_take_step(ds, i - start);
        }
        if acc > (u64::MAX - d) / 10 {
            proof {
                vstd::arithmetic::div_mod::lemma_fundamental_div_mod(
                    (u64::MAX - d) as int,
                    10,
                );
                assert(dec_val(ds.take(i - start + 1)) > u64::MAX);
                crate::bencode_props::lemma_dec_val_take_mono(ds, i - start + 1);
            }
            return None;
        }
        proof {
            vstd::arithmetic::div_mod::lemma_fundamental_div_mod((u64::MAX - d) as int, 10);
            assert(acc * 10 + d <= u64::MAX);
        }
        acc = acc * 10 + d;
        i = i + 1;
    }
    proof {
        assert(ds.take(end - start) =~= ds);
    }
    Some(acc)
}

/// Store `v` under `k`: an existing entry keeps its place and takes the new
/// value, a new key goes to the end.
pub(crate) fn dict_put_exec(entries: &mut Vec<(Vec<u8>, Bencode)>, k: Vec<u8>, v: Bencode)
    ensures
        pairs_view(final(entries)@) == dict_put(pairs_view(old(entries)@), k@, v@),
{
    let mut i: usize = 0;
    while i < entries.len()
        invariant
            i <= entries@.len(),
            entries@ == old(entries)@,
            forall|j: int| 0 <= j < i ==> entries@[j].0@ != k@,
        decreases entries@.len() - i,
    {
        let hit = bytes_eq(entries[i].0.as_slice(), k.as_slice());
        if hit {
            proof {
                assert(forall|j: int|
                    0 <= j < i ==> pairs_view(old(entries)@)[j].0 != k@);
                assert(pairs_view(old(entries)@)[i as int].0 == k@);
                crate::bencode_props::lemma_dict_put_found(
                    pairs_view(old(entries)@),
                    k@,
                    v@,
                    i as int,
                );
            }
            entries.set(i, (k, v));
            proof {
                assert(pairs_view(entries@) =~= pairs_view(old(entries)@).update(
                    i as int,
                    (k@, v@),
                ));
            }
            return;
        }
        i = i + 1;
    }
    proof {
        assert(forall|j: int| 0 <= j < entries@.len() ==> pairs_view(old(entries)@)[j].0 != k@);
        assert(!dict_has_key(pairs_view(old(entries)@), k@));
        crate::bencode_props::lemma_dict_put_absent(pairs_view(old(entries)@), k@, v@);
    }
    entries.push((k, v));
    proof {
        assert(pairs_view(entries@) =~= pairs_view(old(entries)@).push((k@, v@)));
    }
}

/// Read a byte-string term starting at `pos`: digits, a colon, then that
/// many payload bytes.
fn decode_string_at(input: &[u8], pos: usize) -> (r: Result<(Bencode, usize), DecodeError>)
    requires
        pos < input@.len(),
        is_digit_byte(input@[pos as int]),
    ensures
        match r {
            Ok(p) => pos < p.1 <= input@.len() && spec_decode(input@.skip(pos as int)) == Ok::<
                (SpecBencode, Seq<u8>),
                DecodeError,
            >((p.0@, input@.skip(p.1 as int))),
            Err(e) => spec_decode(input@.skip(pos as int)) == Err::<
                (SpecBencode, Seq<u8>),
                DecodeError,
            >(e),
        },
{
    let ghost s = input@.skip(pos as int);
    let n_total: usize = input.len();
    proof {
        assert(s.len() == input@.len() - pos);
        assert(s[0] == input@[pos as int]);
        assert(spec_decode(s) == spec_decode_string(s));
    }
    let mut j: usize = pos;
    while j < n_total && DIGIT_ZERO <= input[j] && input[j] <= DIGIT_NINE
        invariant
            pos <= j <= n_total == input@.len(),
            forall|m: int| pos <= m < j ==> is_digit_byte(input@[m]),
        decreases n_total - j,
    {
        j = j + 1;
    }
    let ghost ds = digits_prefix(s);
    proof {
        assert(forall|m: int| 0 <= m < j - pos ==> s[m] == input@[pos + m]);
        assert(j < n_total ==> s[j - pos] == input@[j as int]);
        crate::bencode_props::lemma_digits_prefix_take(s, j - pos);
        assert(ds =~= input@.subrange(pos as int, j as int));
    }
    if j == n_total {
        proof {
            assert(ds.len() == s.len());
        }
        return Err(DecodeError::Truncated);
    }
    if input[j] != COLON {
        proof {
            assert(s[ds.len() as int] == input@[j as int]);
        }
        return Err(DecodeError::BadLengthPrefix);
    }
    let remaining: usize = n_total - j - 1;
    let ghost after = s.skip(ds.len() + 1int);
    proof {
        assert(after =~= input@.skip(j + 1));
        assert(after.len() == remaining);
    }
    match parse_decimal(input, pos, j) {
        None => {
            proof {
                assert(dec_val(ds) > u64::MAX);
                assert(after.len() < dec_val(ds));
            }
            Err(DecodeError::Truncated)
        },
        Some(n64) => {
            proof {
                assert(dec_val(ds) == n64);
            }
            if n64 > remaining as u64 {
                proof {
                    assert(after.len() < dec_val(ds));
                }
                return Err(DecodeError::Truncated);
            }
            let n: usize = n64 as usize;
            let payload = vstd::slice::slice_to_vec(
                vstd::slice::slice_subrange(input, j + 1, j + 1 + n),
            );
            let end: usize = j + 1 + n;
            let v = Bencode::String(payload);
            proof {
                assert(after.take(n as int) =~= input@.subrange(j + 1, j + 1 + n));
                assert(after.skip(n as int) =~= input@.skip(end as int));
                assert(v@ == SpecBencode::String(after.take(n as int)));
            }
            Ok((v, end))
        },
    }
}

/// Read an integer term starting at `pos`: `i`, an optional sign, digits
/// with no leading zero, then the closing byte.
fn decode_integer_at(input: &[u8], pos: usize) -> (r: Result<(Bencode, usize), DecodeError>)
    requires
        pos < input@.len(),
        input@[pos as int] == TAG_INTEGER,
    ensures
        match r {
            Ok(p) => pos < p.1 <= input@.len() && spec_decode(input@.skip(pos as int)) == Ok::<
                (SpecBencode, Seq<u8>),
                DecodeError,
            >((p.0@, input@.skip(p.1 as int))),
            Err(e) => spec_decode(input@.skip(pos as int)) == Err::<
                (SpecBencode, Seq<u8>),
                DecodeError,
            >(e),
        },
{
    let ghost s = input@.skip(pos as int);
    let n_total: usize = input.len();
    let ghost body = s.drop_first();
    proof {
        assert(s.len() == input@.len() - pos);
        assert(s[0] == input@[pos as int]);
        assert(!is_digit_byte(s[0]));
        assert(spec_decode(s) == spec_decode_integer(s));
        assert(body =~= input@.skip(pos + 1));
    }
    if pos + 1 == n_total {
        return Err(DecodeError::Truncated);
    }
    let neg: bool = input[pos + 1] == MINUS;
    let start: usize = if neg {
        pos + 2
    } else {
        pos + 1
    };
    let ghost unsigned = if neg {
        body.drop_first()
    } else {
        body
    };
    proof {
        assert(body[0] == input@[pos + 1]);
        assert(unsigned =~= input@.skip(start as int));
    }
    let mut j: usize = start;
    while j < n_total && DIGIT_ZERO <= input[j] && input[j] <= DIGIT_NINE
        invariant
            start <= j <= n_total == input@.len(),
            forall|m: int| start <= m < j ==> is_digit_byte(input@[m]),
        decreases n_total - j,
    {
        j = j + 1;
    }
    let ghost ds = digits_prefix(unsigned);
    proof {
        assert(forall|m: int| 0 <= m < j - start ==> unsigned[m] == input@[start + m]);
        assert(j < n_total ==> unsigned[j - start] == input@[j as int]);
        crate::bencode_props::lemma_digits_prefix_take(unsigned, j - start);
        assert(ds =~= input@.subrange(start as int, j as int));
    }
    if j == start {
        if start == n_total {
            proof {
                assert(unsigned.len() == 0);
            }
            return Err(DecodeError::Truncated);
        }
        proof {
            assert(unsigned.len() > 0);
        }
        return Err(DecodeError::BadInteger);
    }
    if j == n_total {
        proof {
            assert(ds.len() == unsigned.len());
        }
        return Err(DecodeError::Truncated);
    }
    if input[j] != TERM_END {
        proof {
            assert(unsigned[ds.len() as int] == input@[j as int]);
        }
        return Err(DecodeError::BadInteger);
    }
    if j - start > 1 && input[start] == DIGIT_ZERO {
        proof {
            assert(ds[0] == input@[start as int]);
        }
        return Err(DecodeError::LeadingZero);
    }
    if neg && j - start == 1 && input[start] == DIGIT_ZERO {
        proof {
            assert(ds[0] == input@[start as int]);
        }
        return Err(DecodeError::MinusZero);
    }
    proof {
        assert(ds[0] == input@[start as int]);
        assert(!(ds.len() > 1 && ds[0] == DIGIT_ZERO));
        assert(!(neg && ds.len() == 1 && ds[0] == DIGIT_ZERO));
    }
    let end: usize = j + 1;
    proof {
        assert(unsigned.skip(ds.len() + 1int) =~= input@.skip(end as int));
    }
    match parse_decimal(input, start, j) {
        None => {
            proof {
                assert(dec_val(ds) > u64::MAX);
            }
            Err(DecodeError::IntegerOverflow)
        },
        Some(m) => {
            proof {
                assert(dec_val(ds) == m);
            }
            if neg {
                if m > 9223372036854775808u64 {
                    return Err(DecodeError::IntegerOverflow);
                }
                let val: i64 = if m == 9223372036854775808u64 {
                    i64::MIN
                } else {
                    -(m as i64)
                };
                proof {
                    assert(val as int == -dec_val(ds));
                }
                return Ok((Bencode::Integer(val), end));
            }
            if m > 9223372036854775807u64 {
                return Err(DecodeError::IntegerOverflow);
            }
            Ok((Bencode::Integer(m as i64), end))
        },
    }
}

/// Read a list term starting at `pos`: items one after the other up to the
/// closing byte.
fn decode_list_at(input: &[u8], pos: usize) -> (r: Result<(Bencode, usize), DecodeError>)
    requires
        pos < input@.len(),
        input@[pos as int] == TAG_LIST,
    ensures
        match r {
            Ok(p) => pos < p.1 <= input@.len() && spec_decode(input@.skip(pos as int)) == Ok::<
                (SpecBencode, Seq<u8>),
                DecodeError,
            >((p.0@, input@.skip(p.1 as int))),
            Err(e) => spec_decode(input@.skip(pos as int)) == Err::<
                (SpecBencode, Seq<u8>),
                DecodeError,
            >(e),
        },
    decreases input@.len() - pos, 0int,
{
    let ghost s = input@.skip(pos as int);
    let n_total: usize = input.len();
    let mut items: Vec<Bencode> = Vec::new();
    let ghost mut got: Seq<SpecBencode> = Seq::empty();
    let mut cur: usize = pos + 1;
    proof {
        assert(s.len() == input@.len() - pos);
        assert(s[0] == input@[pos as int]);
        assert(s.drop_first() =~= input@.skip(pos + 1));
        if let Ok(p) = spec_decode_items(input@.skip(pos + 1)) {
            assert(Seq::<SpecBencode>::empty() + p.0 =~= p.0);
        }
    }
    while cur < n_total
        invariant
            pos + 1 <= cur <= n_total == input@.len(),
            s == input@.skip(pos as int),
            s.len() == n_total - pos,
            s[0] == TAG_LIST,
            got.len() == items@.len(),
            forall|m: int| 0 <= m < got.len() ==> got[m] == items@[m]@,
            (match spec_decode_items(input@.skip(cur as int)) {
                Ok(p) => spec_decode_items(input@.skip(pos + 1)) == Ok::<
                    (Seq<SpecBencode>, Seq<u8>),
                    DecodeError,
                >((got + p.0, p.1)),
                Err(e) => spec_decode_items(input@.skip(pos + 1)) == Err::<
                    (Seq<SpecBencode>, Seq<u8>),
                    DecodeError,
                >(e),
            }),
        decreases n_total - cur,
    {
        let ghost sc = input@.skip(cur as int);
        proof {
            assert(sc.len() > 0);
            assert(sc[0] == input@[cur as int]);
            assert(sc.drop_first() =~= input@.skip(cur + 1));
            assert(s.drop_first() =~= input@.skip(pos + 1));
        }
        if input[cur] == TERM_END {
            let v = Bencode::List(items);
            proof {
                assert(spec_decode_items(sc) == Ok::<(Seq<SpecBencode>, Seq<u8>), DecodeError>(
                    (Seq::empty(), input@.skip(cur + 1)),
                ));
                assert(got + Seq::<SpecBencode>::empty() =~= got);
                assert(items_view(items@) =~= got);
                lemma_list_view(items);
            }
            return Ok((v, cur + 1));
        }
        match decode_at(input, cur) {
            Err(e) => {
                proof {
                    assert(spec_decode(sc) == Err::<(SpecBencode, Seq<u8>), DecodeError>(e));
                    assert(spec_decode_items(sc) == Err::<
                        (Seq<SpecBencode>, Seq<u8>),
                        DecodeError,
                    >(e));
                }
                return Err(e);
            },
            Ok((v, end2)) => {
                proof {
                    assert(input@.skip(end2 as int).len() < sc.len());
                    if let Ok(p2) = spec_decode_items(input@.skip(end2 as int)) {
                        assert(spec_decode_items(sc) == Ok::<
                            (Seq<SpecBencode>, Seq<u8>),
                            DecodeError,
                        >((seq![v@] + p2.0, p2.1)));
                        assert(got + (seq![v@] + p2.0) =~= got.push(v@) + p2.0);
                    }
                    got = got.push(v@);
                }
                items.push(v);
                cur = end2;
            },
        }
    }
    // The input ended before the closing byte.
    proof {
        assert(input@.skip(cur as int).len() == 0);
        assert(spec_decode_items(input@.skip(cur as int)) == Err::<
            (Seq<SpecBencode>, Seq<u8>),
            DecodeError,
        >(DecodeError::Truncated));
        assert(s.drop_first() =~= input@.skip(pos + 1));
    }
    Err(DecodeError::Truncated)
}

/// Read a dictionary term starting at `pos`: byte-string keys each followed
/// by a value term, up to the closing byte, pairs kept in encounter order.
fn decode_dict_at(input: &[u8], pos: usize) -> (r: Result<(Bencode, usize), DecodeError>)
    requires
        pos < input@.len(),
        input@[pos as int] == TAG_DICTIONARY,
    ensures
        match r {
            Ok(p) => pos < p.1 <= input@.len() && spec_decode(input@.skip(pos as int)) == Ok::<
                (SpecBencode, Seq<u8>),
                DecodeError,
            >((p.0@, input@.skip(p.1 as int))),
            Err(e) => spec_decode(input@.skip(pos as int)) == Err::<
                (SpecBencode, Seq<u8>),
                DecodeError,
            >(e),
        },
    decreases input@.len() - pos, 0int,
{
    let ghost s = input@.skip(pos as int);
    let n_total: usize = input.len();
    let mut pairs: Vec<(Vec<u8>, Bencode)> = Vec::new();
    let ghost mut raw: Seq<(Seq<u8>, SpecBencode)> = Seq::empty();
    let mut cur: usize = pos + 1;
    proof {
        assert(s.len() == input@.len() - pos);
        assert(s[0] == input@[pos as int]);
        assert(s.drop_first() =~= input@.skip(pos + 1));
        if let Ok(p) = spec_decode_pairs(input@.skip(pos + 1)) {
            assert(Seq::<(Seq<u8>, SpecBencode)>::empty() + p.0 =~= p.0);
        }
        assert(pairs_view(pairs@) =~= dict_fold(raw));
    }
    while cur < n_total
        invariant
            pos + 1 <= cur <= n_total == input@.len(),
            s == input@.skip(pos as int),
            s.len() == n_total - pos,
            s[0] == TAG_DICTIONARY,
            pairs_view(pairs@) == dict_fold(raw),
            (match spec_decode_pairs(input@.skip(cur as int)) {
                Ok(p) => spec_decode_pairs(input@.skip(pos + 1)) == Ok::<
                    (Seq<(Seq<u8>, SpecBencode)>, Seq<u8>),
                    DecodeError,
                >((raw + p.0, p.1)),
                Err(e) => spec_decode_pairs(input@.skip(pos + 1)) == Err::<
                    (Seq<(Seq<u8>, SpecBencode)>, Seq<u8>),
                    DecodeError,
                >(e),
            }),
        decreases n_total - cur,
    {
        let ghost sc = input@.skip(cur as int);
        proof {
            assert(sc.len() > 0);
            assert(sc[0] == input@[cur as int]);
            assert(sc.drop_first() =~= input@.skip(cur + 1));
            assert(s.drop_first() =~= input@.skip(pos + 1));
        }
        if input[cur] == TERM_END {
            let v = Bencode::Dictionary(pairs);
            proof {
                assert(spec_decode_pairs(sc) == Ok::<
                    (Seq<(Seq<u8>, SpecBencode)>, Seq<u8>),
                    DecodeError,
                >((Seq::empty(), input@.skip(cur + 1))));
                assert(raw + Seq::<(Seq<u8>, SpecBencode)>::empty() =~= raw);
                lemma_dictionary_view(pairs);
            }
            return Ok((v, cur + 1));
        }
        let key = match decode_at(input, cur) {
            Err(e) => {
                proof {
                    assert(spec_decode_pairs(sc) == Err::<
                        (Seq<(Seq<u8>, SpecBencode)>, Seq<u8>),
                        DecodeError,
                    >(e));
                }
                return Err(e);
            },
            Ok(kp) => kp,
        };
        let key_bytes = match key.0 {
            Bencode::String(kb) => kb,
            _ => {
                proof {
                    assert(!(key.0@ matches SpecBencode::String(_)));
                    assert(spec_decode_pairs(sc) == Err::<
                        (Seq<(Seq<u8>, SpecBencode)>, Seq<u8>),
                        DecodeError,
                    >(DecodeError::NonStringKey));
                }
                return Err(DecodeError::NonStringKey);
            },
        };
        let kend = key.1;
        proof {
            assert(input@.skip(kend as int).len() < sc.len());
        }
        match decode_at(input, kend) {
            Err(e) => {
                proof {
                    assert(spec_decode_pairs(sc) == Err::<
                        (Seq<(Seq<u8>, SpecBencode)>, Seq<u8>),
                        DecodeError,
                    >(e));
                }
                return Err(e);
            },
            Ok((vv, vend)) => {
                proof {
                    assert(input@.skip(vend as int).len() < input@.skip(kend as int).len());
                    if let Ok(p2) = spec_decode_pairs(input@.skip(vend as int)) {
                        assert(spec_decode_pairs(sc) == Ok::<
                            (Seq<(Seq<u8>, SpecBencode)>, Seq<u8>),
                            DecodeError,
                        >((seq![(key_bytes@, vv@)] + p2.0, p2.1)));
                        assert(raw + (seq![(key_bytes@, vv@)] + p2.0) =~= raw.push(
                            (key_bytes@, vv@),
                        ) + p2.0);
                    }
                    crate::bencode_props::lemma_dict_fold_push(raw, key_bytes@, vv@);
                }
                dict_put_exec(&mut pairs, key_bytes, vv);
                proof {
                    raw = raw.push((key_bytes@, vv@));
                }
                cur = vend;
            },
        }
    }
    // The input ended before the closing byte.
    proof {
        assert(input@.skip(cur as int).len() == 0);
        assert(spec_decode_pairs(input@.skip(cur as int)) == Err::<
            (Seq<(Seq<u8>, SpecBencode)>, Seq<u8>),
            DecodeError,
        >(DecodeError::Truncated));
        assert(s.drop_first() =~= input@.skip(pos + 1));
    }
    Err(DecodeError::Truncated)
}

/// Read one term starting at `pos`, dispatching on the leading byte.
pub(crate) fn decode_at(input: &[u8], pos: usize) -> (r: Result<(Bencode, usize), DecodeError>)
    requires
        pos <= input@.len(),
    ensures
        match r {
            Ok(p) => pos < p.1 <= input@.len() && spec_decode(input@.skip(pos as int)) == Ok::<
                (SpecBencode, Seq<u8>),
                DecodeError,
            >((p.0@, input@.skip(p.1 as int))),
            Err(e) => spec_decode(input@.skip(pos as int)) == Err::<
                (SpecBencode, Seq<u8>),
                DecodeError,
            >(e),
        },
    decreases input@.len() - pos, 1int,
{
    let ghost s = input@.skip(pos as int);
    if pos == input.len() {
        return Err(DecodeError::Truncated);
    }
    let tag: u8 = input[pos];
    proof {
        assert(s.len() == input@.len() - pos);
        assert(s[0] == input@[pos as int]);
    }
    if DIGIT_ZERO <= tag && tag <= DIGIT_NINE {
        decode_string_at(input, pos)
    } else if tag == TAG_INTEGER {
        decode_integer_at(input, pos)
    } else if tag == TAG_LIST {
        decode_list_at(input, pos)
    } else if tag == TAG_DICTIONARY {
        decode_dict_at(input, pos)
    } else {
        Err(DecodeError::UnknownTag)
    }
}

impl Bencode {
    /// Read one term off the front of `encoded_value`: the decoded term and
    /// the unconsumed remainder of the buffer, or the decode error that
    /// makes the buffer begin with no term.
    pub fn decode_value(encoded_value: Vec<u8>) -> (r: Result<(Self, Vec<u8>), DecodeError>)
        ensures
            match r {
                Ok(p) => spec_decode(encoded_value@) == Ok::<(SpecBencode, Seq<u8>), DecodeError>(
                    (p.0@, p.1@),
                ),
                Err(e) => spec_decode(encoded_value@) == Err::<
                    (SpecBencode, Seq<u8>),
                    DecodeError,
                >(e),
            },
    {
        proof {
            assert(encoded_value@.skip(0) =~= encoded_value@);
        }
        match decode_at(encoded_value.as_slice(), 0) {
            Ok((v, end)) => {
                let rest = vstd::slice::slice_to_vec(
                    vstd::slice::slice_subrange(encoded_value.as_slice(), end, encoded_value.len()),
                );
                proof {
                    assert(encoded_value@.subrange(end as int, encoded_value@.len() as int)
                        =~= encoded_value@.skip(end as int));
                }
                Ok((v, rest))
            },
            Err(e) => Err(e),
        }
    }
}

} // verus!
