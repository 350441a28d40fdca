//! Lemmas about the bencode grammar, up to the encode/decode round trip.

use vstd::prelude::*;

use crate::bencode_spec::{
    dec_digits, dict_fold, dict_has_key, dict_put, digit_val, digits_prefix, dec_val, int_literal,
    is_digit_byte, spec_decode, spec_decode_integer, spec_decode_items, spec_decode_pairs,
    spec_decode_string, spec_encode, spec_encode_items, spec_encode_pairs, DecodeError,
    SpecBencode, COLON, DIGIT_ZERO, MINUS, TAG_DICTIONARY, TAG_INTEGER, TAG_LIST, TERM_END,
};

verus! {

/// Encoding a run of items piece by piece agrees with encoding it whole.
pub proof fn lemma_encode_items_concat(a: Seq<SpecBencode>, b: Seq<SpecBencode>)
    ensures
        spec_encode_items(a + b) == spec_encode_items(a) + spec_encode_items(b),
    decreases a.len(),
{
    if a.len() == 0 {
        assert(a + b =~= b);
        assert(spec_encode_items(a) + spec_encode_items(b) =~= spec_encode_items(b));
    } else {
        assert((a + b).drop_first() =~= a.drop_first() + b);
        lemma_encode_items_concat(a.drop_first(), b);
        assert(spec_encode_items(a + b) =~= spec_encode_items(a) + spec_encode_items(b));
    }
}

/// One more item extends the encoded run by that item's encoding.
pub proof fn lemma_encode_items_snoc(items: Seq<SpecBencode>, i: int)
    requires
        0 <= i < items.len(),
    ensures
        spec_encode_items(items.take(i + 1)) == spec_encode_items(items.take(i)) + spec_encode(
            items[i],
        ),
{
    let single = seq![items[i]];
    assert(items.take(i + 1) =~= items.take(i) + single);
    lemma_encode_items_concat(items.take(i), single);
    assert(single.drop_first() =~= Seq::<SpecBencode>::empty());
    assert(spec_encode_items(Seq::<SpecBencode>::empty()) == Seq::<u8>::empty());
    assert(spec_encode_items(single) == spec_encode(single[0]) + spec_encode_items(
        single.drop_first(),
    ));
    assert(spec_encode_items(single) =~= spec_encode(items[i]));
}

/// Encoding a run of pairs piece by piece agrees with encoding it whole.
pub proof fn lemma_encode_pairs_concat(
    a: Seq<(Seq<u8>, SpecBencode)>,
    b: Seq<(Seq<u8>, SpecBencode)>,
)
    ensures
        spec_encode_pairs(a + b) == spec_encode_pairs(a) + spec_encode_pairs(b),
    decreases a.len(),
{
    if a.len() == 0 {
        assert(a + b =~= b);
        assert(spec_encode_pairs(a) + spec_encode_pairs(b) =~= spec_encode_pairs(b));
    } else {
        assert((a + b).drop_first() =~= a.drop_first() + b);
        lemma_encode_pairs_concat(a.drop_first(), b);
        assert(spec_encode_pairs(a + b) =~= spec_encode_pairs(a) + spec_encode_pairs(b));
    }
}

/// One more pair extends the encoded run by that pair's encoding.
pub proof fn lemma_encode_pairs_snoc(entries: Seq<(Seq<u8>, SpecBencode)>, i: int)
    requires
        0 <= i < entries.len(),
    ensures
        spec_encode_pairs(entries.take(i + 1)) == spec_encode_pairs(entries.take(i)) + (dec_digits(
            entries[i].0.len(),
        ) + seq![COLON] + entries[i].0 + spec_encode(entries[i].1)),
{
    let single = seq![entries[i]];
    assert(entries.take(i + 1) =~= entries.take(i) + single);
    lemma_encode_pairs_concat(entries.take(i), single);
    assert(single.drop_first() =~= Seq::<(Seq<u8>, SpecBencode)>::empty());
    assert(spec_encode_pairs(Seq::<(Seq<u8>, SpecBencode)>::empty()) == Seq::<u8>::empty());
    assert(spec_encode_pairs(single) == dec_digits(single[0].0.len()) + seq![COLON]
        + single[0].0 + spec_encode(single[0].1) + spec_encode_pairs(single.drop_first()));
    assert(spec_encode_pairs(single) =~= dec_digits(entries[i].0.len()) + seq![COLON]
        + entries[i].0 + spec_encode(entries[i].1));
}

/// Ten to the `n`th power.
pub open spec fn pow10(n: nat) -> int
    decreases n,
{
    if n == 0 {
        1
    } else {
        10 * pow10((n - 1) as nat)
    }
}

/// True when every byte of `ds` is an ASCII decimal digit.
pub open spec fn all_digits(ds: Seq<u8>) -> bool {
    forall|m: int| 0 <= m < ds.len() ==> is_digit_byte(ds[m])
}

/// The longest digit prefix is the prefix up to the first non-digit byte.
pub proof fn lemma_digits_prefix_take(s: Seq<u8>, k: int)
    requires
        0 <= k <= s.len(),
        forall|m: int| 0 <= m < k ==> is_digit_byte(s[m]),
        k < s.len() ==> !is_digit_byte(s[k]),
    ensures
        digits_prefix(s) == s.take(k),
    decreases s.len(),
{
    if k == 0 {
        assert(s.take(0) =~= Seq::<u8>::empty());
        assert(digits_prefix(s) =~= s.take(0));
    } else {
        let rest = s.drop_first();
        assert(forall|m: int| 0 <= m < k - 1 ==> is_digit_byte(rest[m]));
        lemma_digits_prefix_take(rest, k - 1);
        assert(seq![s[0]] + rest.take(k - 1) =~= s.take(k));
    }
}

/// The value of a digit run is non-negative and below ten to its length.
pub proof fn lemma_dec_val_bounds(ds: Seq<u8>)
    requires
        all_digits(ds),
    ensures
        0 <= dec_val(ds) < pow10(ds.len()),
    decreases ds.len(),
{
    if ds.len() == 0 {
    } else {
        let dl = ds.drop_last();
        assert(all_digits(dl));
        lemma_dec_val_bounds(dl);
        assert(0 <= digit_val(ds.last()) <= 9);
    }
}

/// Reading one more digit multiplies the value so far by ten and adds it.
pub proof fn lemma_dec_val_take_step(ds: Seq<u8>, m: int)
    requires
        0 <= m < ds.len(),
    ensures
        dec_val(ds.take(m + 1)) == dec_val(ds.take(m)) * 10 + digit_val(ds[m]),
{
    assert(ds.take(m + 1).drop_last() =~= ds.take(m));
    assert(ds.take(m + 1).last() == ds[m]);
}

/// The value of a digit run is at least the value of any of its prefixes.
pub proof fn lemma_dec_val_take_mono(ds: Seq<u8>, m: int)
    requires
        all_digits(ds),
        0 <= m <= ds.len(),
    ensures
        dec_val(ds.take(m)) <= dec_val(ds),
    decreases ds.len() - m,
{
    if m == ds.len() {
        assert(ds.take(m) =~= ds);
    } else {
        lemma_dec_val_take_step(ds, m);
        assert(all_digits(ds.take(m)));
        lemma_dec_val_bounds(ds.take(m));
        lemma_dec_val_take_mono(ds, m + 1);
    }
}

/// Every byte of a decimal rendering is a digit, and there is at least one.
pub proof fn lemma_dec_digits_shape(n: nat)
    ensures
        dec_digits(n).len() >= 1,
        all_digits(dec_digits(n)),
    decreases n,
{
    if n < 10 {
        assert(all_digits(dec_digits(n)));
    } else {
        lemma_dec_digits_shape(n / 10);
        assert(all_digits(dec_digits(n)));
    }
}

/// A decimal rendering starts with the zero digit only for zero itself, and
/// has more than one byte exactly for numbers of ten and above.
pub proof fn lemma_dec_digits_canonical(n: nat)
    ensures
        dec_digits(n).len() == 1 <==> n < 10,
        dec_digits(n)[0] == DIGIT_ZERO <==> n == 0,
    decreases n,
{
    if n >= 10 {
        lemma_dec_digits_shape(n / 10);
        lemma_dec_digits_canonical(n / 10);
        assert(dec_digits(n)[0] == dec_digits(n / 10)[0]);
    }
}

/// Reading back a decimal rendering gives the number it renders.
pub proof fn lemma_dec_val_of_dec_digits(n: nat)
    ensures
        dec_val(dec_digits(n)) == n,
    decreases n,
{
    if n < 10 {
        assert(dec_digits(n) == seq![(DIGIT_ZERO + n) as u8]);
        assert(dec_digits(n).drop_last() =~= Seq::<u8>::empty());
        assert(dec_val(dec_digits(n)) == dec_val(dec_digits(n).drop_last()) * 10 + digit_val(
            dec_digits(n).last(),
        ));
        assert(dec_val(Seq::<u8>::empty()) == 0);
        assert(dec_digits(n).last() == (DIGIT_ZERO + n) as u8);
        assert(digit_val((DIGIT_ZERO + n) as u8) == n);
    } else {
        lemma_dec_val_of_dec_digits(n / 10);
        assert(dec_digits(n).drop_last() =~= dec_digits(n / 10));
        assert(dec_digits(n).last() == (DIGIT_ZERO + n % 10) as u8);
        assert(digit_val((DIGIT_ZERO + n % 10) as u8) == n % 10);
        assert(dec_val(dec_digits(n)) == (n / 10) * 10 + n % 10);
        vstd::arithmetic::div_mod::lemma_fundamental_div_mod(n as int, 10);
    }
}

/// Storing under a fresh key appends the entry.
pub proof fn lemma_dict_put_absent(es: Seq<(Seq<u8>, SpecBencode)>, k: Seq<u8>, v: SpecBencode)
    requires
        !dict_has_key(es, k),
    ensures
        dict_put(es, k, v) == es.push((k, v)),
    decreases es.len(),
{
    if es.len() == 0 {
        assert(dict_put(es, k, v) =~= es.push((k, v)));
    } else {
        assert(es[0].0 != k);
        assert(!dict_has_key(es.drop_first(), k)) by {
            if dict_has_key(es.drop_first(), k) {
                let i = choose|i: int| 0 <= i < es.drop_first().len() && es.drop_first()[i].0 == k;
                assert(es[i + 1].0 == k);
            }
        }
        lemma_dict_put_absent(es.drop_first(), k, v);
        assert(dict_put(es, k, v) =~= es.push((k, v)));
    }
}

/// Storing under the key of entry `i`, the first entry with that key,
/// replaces that entry in place.
pub proof fn lemma_dict_put_found(
    es: Seq<(Seq<u8>, SpecBencode)>,
    k: Seq<u8>,
    v: SpecBencode,
    i: int,
)
    requires
        0 <= i < es.len(),
        es[i].0 == k,
        forall|j: int| 0 <= j < i ==> es[j].0 != k,
    ensures
        dict_put(es, k, v) == es.update(i, (k, v)),
    decreases es.len(),
{
    if i == 0 {
        assert(dict_put(es, k, v) =~= es.update(0, (k, v)));
    } else {
        assert(es[0].0 != k);
        assert(forall|j: int| 0 <= j < i - 1 ==> es.drop_first()[j].0 != k);
        lemma_dict_put_found(es.drop_first(), k, v, i - 1);
        assert(dict_put(es, k, v) =~= es.update(i, (k, v)));
    }
}

/// Storing one more raw pair into a folded mapping folds the extended run.
pub proof fn lemma_dict_fold_push(raw: Seq<(Seq<u8>, SpecBencode)>, k: Seq<u8>, v: SpecBencode)
    ensures
        dict_fold(raw.push((k, v))) == dict_put(dict_fold(raw), k, v),
{
    assert(raw.push((k, v)).drop_last() =~= raw);
    assert(raw.push((k, v)).last() == (k, v));
}

/// An encoded term is never empty, and its first byte is a digit or an
/// opening tag, never the closing byte.
pub proof fn lemma_encode_head(v: SpecBencode)
    ensures
        spec_encode(v).len() >= 1,
        is_digit_byte(spec_encode(v)[0]) || spec_encode(v)[0] == TAG_INTEGER || spec_encode(v)[0]
            == TAG_LIST || spec_encode(v)[0] == TAG_DICTIONARY,
        spec_encode(v)[0] != TERM_END,
{
    match v {
        SpecBencode::String(s) => {
            lemma_dec_digits_shape(s.len());
            assert(spec_encode(v)[0] == dec_digits(s.len())[0]);
            assert(is_digit_byte(dec_digits(s.len())[0]));
        },
        SpecBencode::Integer(_) => {
            assert(spec_encode(v)[0] == TAG_INTEGER);
        },
        SpecBencode::List(_) => {
            assert(spec_encode(v)[0] == TAG_LIST);
        },
        SpecBencode::Dictionary(_) => {
            assert(spec_encode(v)[0] == TAG_DICTIONARY);
        },
    }
}

/// Reading a byte-string term off its encoding followed by anything gives
/// the byte-string back and leaves exactly the rest.
pub proof fn lemma_round_trip_string(sb: Seq<u8>, rest: Seq<u8>)
    ensures
        spec_decode(dec_digits(sb.len()) + seq![COLON] + sb + rest) == Ok::<
            (SpecBencode, Seq<u8>),
            DecodeError,
        >((SpecBencode::String(sb), rest)),
{
    let ds = dec_digits(sb.len());
    let s = ds + seq![COLON] + sb + rest;
    lemma_dec_digits_shape(sb.len());
    assert(s[0] == ds[0]);
    assert(is_digit_byte(s[0]));
    assert(forall|m: int| 0 <= m < ds.len() ==> s[m] == ds[m]);
    assert(s[ds.len() as int] == COLON);
    assert(!is_digit_byte(COLON));
    lemma_digits_prefix_take(s, ds.len() as int);
    assert(digits_prefix(s) =~= ds);
    lemma_dec_val_of_dec_digits(sb.len());
    assert(dec_val(ds) == sb.len());
    let after = s.skip(ds.len() + 1int);
    assert(after =~= sb + rest);
    assert(after.len() >= sb.len());
    assert(after.take(sb.len() as int) =~= sb);
    assert(after.skip(sb.len() as int) =~= rest);
    assert(spec_decode(s) == spec_decode_string(s));
}

/// Reading an integer term off its encoding followed by anything gives the
/// integer back and leaves exactly the rest.
pub proof fn lemma_round_trip_integer(i: int, rest: Seq<u8>)
    requires
        i64::MIN <= i <= i64::MAX,
    ensures
        spec_decode(seq![TAG_INTEGER] + int_literal(i) + seq![TERM_END] + rest) == Ok::<
            (SpecBencode, Seq<u8>),
            DecodeError,
        >((SpecBencode::Integer(i), rest)),
{
    let s = seq![TAG_INTEGER] + int_literal(i) + seq![TERM_END] + rest;
    let mag: nat = if i < 0 {
        (-i) as nat
    } else {
        i as nat
    };
    let ds = dec_digits(mag);
    lemma_dec_digits_shape(mag);
    lemma_dec_digits_canonical(mag);
    lemma_dec_val_of_dec_digits(mag);
    assert(s[0] == TAG_INTEGER);
    assert(!is_digit_byte(TAG_INTEGER));
    let body = s.drop_first();
    let neg = i < 0;
    assert(body =~= int_literal(i) + seq![TERM_END] + rest);
    let unsigned = ds + seq![TERM_END] + rest;
    if neg {
        assert(body[0] == MINUS);
        assert(body.drop_first() =~= unsigned);
    } else {
        assert(body[0] == ds[0]);
        assert(is_digit_byte(ds[0]));
        assert(ds[0] != MINUS);
        assert(body =~= unsigned);
    }
    assert(forall|m: int| 0 <= m < ds.len() ==> unsigned[m] == ds[m]);
    assert(unsigned[ds.len() as int] == TERM_END);
    assert(!is_digit_byte(TERM_END));
    lemma_digits_prefix_take(unsigned, ds.len() as int);
    assert(digits_prefix(unsigned) =~= ds);
    assert(ds.len() < unsigned.len());
    assert(ds.len() > 1 ==> ds[0] != DIGIT_ZERO);
    assert(neg ==> mag >= 1);
    assert(neg ==> !(ds.len() == 1 && ds[0] == DIGIT_ZERO));
    assert(dec_val(ds) == mag);
    assert(unsigned.skip(ds.len() + 1int) =~= rest);
    assert(spec_decode(s) == spec_decode_integer(s));
}

/// A mapping whose keys are distinct folds to itself.
pub proof fn lemma_dict_fold_distinct(entries: Seq<(Seq<u8>, SpecBencode)>)
    requires
        forall|i: int, j: int| 0 <= i < j < entries.len() ==> entries[i].0 != entries[j].0,
    ensures
        dict_fold(entries) == entries,
    decreases entries.len(),
{
    if entries.len() == 0 {
        assert(dict_fold(entries) =~= entries);
    } else {
        let dl = entries.drop_last();
        lemma_dict_fold_distinct(dl);
        assert(!dict_has_key(dl, entries.last().0)) by {
            if dict_has_key(dl, entries.last().0) {
                let i = choose|i: int| 0 <= i < dl.len() && dl[i].0 == entries.last().0;
                assert(entries[i].0 == entries[entries.len() - 1].0);
            }
        }
        lemma_dict_put_absent(dl, entries.last().0, entries.last().1);
        assert(dl.push(entries.last()) =~= entries);
        assert(dict_fold(entries) == dict_put(dict_fold(dl), entries.last().0, entries.last().1));
    }
}

/// Reading a term off its encoding followed by anything gives the term back
/// and leaves exactly the rest: the codec round-trips every well-formed
/// term.
pub proof fn lemma_round_trip(v: SpecBencode, rest: Seq<u8>)
    requires
        v.wf(),
    ensures
        spec_decode(spec_encode(v) + rest) == Ok::<(SpecBencode, Seq<u8>), DecodeError>((v, rest)),
    decreases v,
{
    match v {
        SpecBencode::String(sb) => {
            assert(spec_encode(v) + rest =~= dec_digits(sb.len()) + seq![COLON] + sb + rest);
            lemma_round_trip_string(sb, rest);
        },
        SpecBencode::Integer(i) => {
            assert(spec_encode(v) + rest =~= seq![TAG_INTEGER] + int_literal(i) + seq![TERM_END]
                + rest);
            lemma_round_trip_integer(i, rest);
        },
        SpecBencode::List(items) => {
            let s = spec_encode(v) + rest;
            assert(s[0] == TAG_LIST);
            assert(!is_digit_byte(TAG_LIST));
            assert(s.drop_first() =~= spec_encode_items(items) + seq![TERM_END] + rest);
            lemma_round_trip_items(items, rest);
            assert(spec_decode(s) == Ok::<(SpecBencode, Seq<u8>), DecodeError>((v, rest)));
        },
        SpecBencode::Dictionary(entries) => {
            let s = spec_encode(v) + rest;
            assert(s[0] == TAG_DICTIONARY);
            assert(!is_digit_byte(TAG_DICTIONARY));
            assert(s.drop_first() =~= spec_encode_pairs(entries) + seq![TERM_END] + rest);
            assert(decreases_to!(v => entries));
            lemma_round_trip_pairs(entries, rest);
            lemma_dict_fold_distinct(entries);
            assert(spec_decode(s) == Ok::<(SpecBencode, Seq<u8>), DecodeError>((v, rest)));
        },
    }
}

/// Reading items off an encoded run followed by the closing byte and
/// anything gives the items back and leaves exactly the rest.
pub proof fn lemma_round_trip_items(items: Seq<SpecBencode>, rest: Seq<u8>)
    requires
        forall|i: int| 0 <= i < items.len() ==> items[i].wf(),
    ensures
        spec_decode_items(spec_encode_items(items) + seq![TERM_END] + rest) == Ok::<
            (Seq<SpecBencode>, Seq<u8>),
            DecodeError,
        >((items, rest)),
    decreases items,
{
    let s = spec_encode_items(items) + seq![TERM_END] + rest;
    if items.len() == 0 {
        assert(s =~= seq![TERM_END] + rest);
        assert(s[0] == TERM_END);
        assert(s.drop_first() =~= rest);
        assert(Seq::<SpecBencode>::empty() =~= items);
    } else {
        let head = items[0];
        let tail = items.drop_first();
        let tail_s = spec_encode_items(tail) + seq![TERM_END] + rest;
        assert(s =~= spec_encode(head) + tail_s);
        lemma_encode_head(head);
        assert(s[0] == spec_encode(head)[0]);
        assert(s[0] != TERM_END);
        assert(s.len() > 0);
        lemma_round_trip(head, tail_s);
        assert(spec_decode(s) == Ok::<(SpecBencode, Seq<u8>), DecodeError>((head, tail_s)));
        assert(tail_s.len() < s.len());
        assert(forall|i: int| 0 <= i < tail.len() ==> tail[i] == items[i + 1]);
        lemma_round_trip_items(tail, rest);
        assert(seq![head] + tail =~= items);
    }
}

/// Reading pairs off an encoded run followed by the closing byte and
/// anything gives the pairs back and leaves exactly the rest.
pub proof fn lemma_round_trip_pairs(entries: Seq<(Seq<u8>, SpecBencode)>, rest: Seq<u8>)
    requires
        forall|i: int| 0 <= i < entries.len() ==> entries[i].1.wf(),
    ensures
        spec_decode_pairs(spec_encode_pairs(entries) + seq![TERM_END] + rest) == Ok::<
            (Seq<(Seq<u8>, SpecBencode)>, Seq<u8>),
            DecodeError,
        >((entries, rest)),
    decreases entries,
{
    let s = spec_encode_pairs(entries) + seq![TERM_END] + rest;
    if entries.len() == 0 {
        assert(s =~= seq![TERM_END] + rest);
        assert(s[0] == TERM_END);
        assert(s.drop_first() =~= rest);
        assert(Seq::<(Seq<u8>, SpecBencode)>::empty() =~= entries);
    } else {
        let k = entries[0].0;
        let hv = entries[0].1;
        let tail = entries.drop_first();
        let tail_s = spec_encode_pairs(tail) + seq![TERM_END] + rest;
        let value_s = spec_encode(hv) + tail_s;
        assert(s =~= dec_digits(k.len()) + seq![COLON] + k + value_s);
        lemma_dec_digits_shape(k.len());
        assert(s[0] == dec_digits(k.len())[0]);
        assert(s[0] != TERM_END);
        lemma_round_trip_string(k, value_s);
        assert(spec_decode(s) == Ok::<(SpecBencode, Seq<u8>), DecodeError>(
            (SpecBencode::String(k), value_s),
        ));
        assert(value_s.len() < s.len());
        assert(decreases_to!(entries => entries[0]));
        assert(decreases_to!(entries[0] => entries[0].1));
        lemma_round_trip(hv, tail_s);
        lemma_encode_head(hv);
        assert(tail_s.len() < value_s.len());
        assert(forall|i: int| 0 <= i < tail.len() ==> tail[i] == entries[i + 1]);
        lemma_round_trip_pairs(tail, rest);
        assert((k, hv) == entries[0]);
        assert(seq![entries[0]] + tail =~= entries);
    }
}

/// Reading a term off exactly its encoding gives the term back and consumes
/// the whole buffer: `decode` inverts `encode`.
pub proof fn lemma_decode_of_encode(v: SpecBencode)
    requires
        v.wf(),
    ensures
        spec_decode(spec_encode(v)) == Ok::<(SpecBencode, Seq<u8>), DecodeError>(
            (v, Seq::empty()),
        ),
{
    lemma_round_trip(v, Seq::empty());
    assert(spec_encode(v) + Seq::<u8>::empty() =~= spec_encode(v));
}

/// Keys stay distinct and values stay well-formed when a well-formed value
/// is stored.
pub proof fn lemma_dict_put_wf(es: Seq<(Seq<u8>, SpecBencode)>, k: Seq<u8>, v: SpecBencode)
    requires
        forall|i: int, j: int| 0 <= i < j < es.len() ==> es[i].0 != es[j].0,
        forall|i: int| 0 <= i < es.len() ==> es[i].1.wf(),
        v.wf(),
    ensures
        forall|i: int, j: int|
            0 <= i < j < dict_put(es, k, v).len() ==> dict_put(es, k, v)[i].0 != dict_put(
                es,
                k,
                v,
            )[j].0,
        forall|i: int| 0 <= i < dict_put(es, k, v).len() ==> dict_put(es, k, v)[i].1.wf(),
{
    if dict_has_key(es, k) {
        let i = choose|i: int| 0 <= i < es.len() && es[i].0 == k;
        assert(forall|j: int| 0 <= j < i ==> es[j].0 != k);
        lemma_dict_put_found(es, k, v, i);
        let r = es.update(i, (k, v));
        assert(forall|j: int| 0 <= j < r.len() ==> r[j].0 == es[j].0);
    } else {
        lemma_dict_put_absent(es, k, v);
    }
}

/// Folding raw pairs with well-formed values yields a mapping with distinct
/// keys and well-formed values.
pub proof fn lemma_dict_fold_wf(raw: Seq<(Seq<u8>, SpecBencode)>)
    requires
        forall|i: int| 0 <= i < raw.len() ==> raw[i].1.wf(),
    ensures
        forall|i: int, j: int|
            0 <= i < j < dict_fold(raw).len() ==> dict_fold(raw)[i].0 != dict_fold(raw)[j].0,
        forall|i: int| 0 <= i < dict_fold(raw).len() ==> dict_fold(raw)[i].1.wf(),
    decreases raw.len(),
{
    if raw.len() == 0 {
    } else {
        let dl = raw.drop_last();
        lemma_dict_fold_wf(dl);
        assert(raw.last().1.wf());
        lemma_dict_put_wf(dict_fold(dl), raw.last().0, raw.last().1);
    }
}

/// Whatever the decoder reads is a well-formed term.
pub proof fn lemma_decode_wf(s: Seq<u8>)
    ensures
        spec_decode(s) matches Ok(p) ==> p.0.wf(),
    decreases s.len(), 0int,
{
    if s.len() == 0 {
    } else if is_digit_byte(s[0]) {
    } else if s[0] == TAG_INTEGER {
    } else if s[0] == TAG_LIST {
        lemma_decode_items_wf(s.drop_first());
    } else if s[0] == TAG_DICTIONARY {
        if let Ok(p) = spec_decode_pairs(s.drop_first()) {
            lemma_decode_pairs_wf(s.drop_first());
            lemma_dict_fold_wf(p.0);
        }
    } else {
    }
}

/// Whatever the decoder reads as a run of items is well-formed throughout.
pub proof fn lemma_decode_items_wf(s: Seq<u8>)
    ensures
        spec_decode_items(s) matches Ok(p) ==> forall|i: int| 0 <= i < p.0.len() ==> p.0[i].wf(),
    decreases s.len(), 1int,
{
    if s.len() == 0 {
    } else if s[0] == TERM_END {
    } else {
        if let Ok(q) = spec_decode(s) {
            lemma_decode_wf(s);
            if q.1.len() < s.len() {
                lemma_decode_items_wf(q.1);
                if let Ok(p2) = spec_decode_items(q.1) {
                    assert(forall|i: int|
                        0 <= i < (seq![q.0] + p2.0).len() ==> (seq![q.0] + p2.0)[i].wf());
                }
            }
        }
    }
}

/// Whatever the decoder reads as a run of pairs has well-formed values
/// throughout.
pub proof fn lemma_decode_pairs_wf(s: Seq<u8>)
    ensures
        spec_decode_pairs(s) matches Ok(p) ==> forall|i: int|
            0 <= i < p.0.len() ==> p.0[i].1.wf(),
    decreases s.len(), 1int,
{
    if s.len() == 0 {
    } else if s[0] == TERM_END {
    } else {
        if let Ok(q) = spec_decode(s) {
            if let SpecBencode::String(k) = q.0 {
                if q.1.len() < s.len() {
                    if let Ok(q2) = spec_decode(q.1) {
                        lemma_decode_wf(q.1);
                        if q2.1.len() < q.1.len() {
                            lemma_decode_pairs_wf(q2.1);
                            if let Ok(p3) = spec_decode_pairs(q2.1) {
                                assert(forall|i: int|
                                    0 <= i < (seq![(k, q2.0)] + p3.0).len() ==> (seq![(k, q2.0)]
                                        + p3.0)[i].1.wf());
                            }
                        }
                    }
                }
            }
        }
    }
}

/// The longest digit prefix is a prefix of digits ended by the end of the
/// input or a non-digit byte.
pub proof fn lemma_digits_prefix_shape(s: Seq<u8>)
    ensures
        digits_prefix(s).len() <= s.len(),
        digits_prefix(s) == s.take(digits_prefix(s).len() as int),
        forall|m: int| 0 <= m < digits_prefix(s).len() ==> is_digit_byte(s[m]),
        digits_prefix(s).len() < s.len() ==> !is_digit_byte(s[digits_prefix(s).len() as int]),
    decreases s.len(),
{
    if s.len() > 0 && is_digit_byte(s[0]) {
        let rest = s.drop_first();
        lemma_digits_prefix_shape(rest);
        let k = digits_prefix(s).len() as int;
        assert(digits_prefix(s) == seq![s[0]] + digits_prefix(rest));
        assert(forall|m: int| 1 <= m < k ==> s[m] == rest[m - 1]);
        assert(digits_prefix(s) =~= s.take(k));
    } else {
        assert(digits_prefix(s) =~= s.take(0));
    }
}

/// Reading a term off a buffer is unchanged by whatever follows: appending
/// more bytes appends them to the remainder.
pub proof fn lemma_decode_extend(s: Seq<u8>, t: Seq<u8>)
    ensures
        spec_decode(s) matches Ok(p) ==> spec_decode(s + t) == Ok::<
            (SpecBencode, Seq<u8>),
            DecodeError,
        >((p.0, p.1 + t)),
    decreases s.len(), 0int,
{
    if spec_decode(s) matches Ok(p) {
        let u = s + t;
        assert(s.len() > 0);
        assert(u[0] == s[0]);
        if is_digit_byte(s[0]) {
            let ds = digits_prefix(s);
            lemma_digits_prefix_shape(s);
            // A complete byte-string ends its digit run inside the buffer.
            assert(ds.len() < s.len());
            assert(s[ds.len() as int] == COLON);
            assert(forall|m: int| 0 <= m < ds.len() ==> u[m] == s[m]);
            lemma_digits_prefix_take(u, ds.len() as int);
            assert(digits_prefix(u) =~= ds);
            assert(u[ds.len() as int] == COLON);
            let n = dec_val(ds);
            assert(all_digits(ds));
            lemma_dec_val_bounds(ds);
            assert(n >= 0);
            let after = s.skip(ds.len() + 1int);
            let after_u = u.skip(ds.len() + 1int);
            assert(after.len() >= n);
            assert(after_u =~= after + t);
            assert(after_u.take(n) =~= after.take(n));
            assert(after_u.skip(n) =~= after.skip(n) + t);
        } else if s[0] == TAG_INTEGER {
            let body = s.drop_first();
            let body_u = u.drop_first();
            assert(body_u =~= body + t);
            assert(body.len() > 0);
            assert(body_u[0] == body[0]);
            let neg = body[0] == MINUS;
            let unsigned = if neg {
                body.drop_first()
            } else {
                body
            };
            let unsigned_u = if neg {
                body_u.drop_first()
            } else {
                body_u
            };
            assert(unsigned_u =~= unsigned + t);
            let ds = digits_prefix(unsigned);
            lemma_digits_prefix_shape(unsigned);
            // A complete integer ends its digit run at the closing byte.
            assert(ds.len() < unsigned.len());
            assert(unsigned[ds.len() as int] == TERM_END);
            assert(forall|m: int| 0 <= m < ds.len() ==> unsigned_u[m] == unsigned[m]);
            lemma_digits_prefix_take(unsigned_u, ds.len() as int);
            assert(digits_prefix(unsigned_u) =~= ds);
            assert(unsigned_u[ds.len() as int] == TERM_END);
            assert(unsigned_u.skip(ds.len() + 1int) =~= unsigned.skip(ds.len() + 1int) + t);
        } else if s[0] == TAG_LIST {
            assert(u.drop_first() =~= s.drop_first() + t);
            lemma_decode_items_extend(s.drop_first(), t);
        } else if s[0] == TAG_DICTIONARY {
            assert(u.drop_first() =~= s.drop_first() + t);
            lemma_decode_pairs_extend(s.drop_first(), t);
        }
    }
}

/// Reading a run of list items is unchanged by whatever follows the run.
pub proof fn lemma_decode_items_extend(s: Seq<u8>, t: Seq<u8>)
    ensures
        spec_decode_items(s) matches Ok(p) ==> spec_decode_items(s + t) == Ok::<
            (Seq<SpecBencode>, Seq<u8>),
            DecodeError,
        >((p.0, p.1 + t)),
    decreases s.len(), 1int,
{
    if spec_decode_items(s) matches Ok(p) {
        let u = s + t;
        assert(s.len() > 0);
        assert(u[0] == s[0]);
        if s[0] == TERM_END {
            assert(u.drop_first() =~= s.drop_first() + t);
        } else {
            if let Ok(q) = spec_decode(s) {
                lemma_decode_extend(s, t);
                assert(q.1.len() < s.len());
                assert((q.1 + t).len() < u.len());
                lemma_decode_items_extend(q.1, t);
            }
        }
    }
}

/// Reading a run of dictionary pairs is unchanged by whatever follows the
/// run.
pub proof fn lemma_decode_pairs_extend(s: Seq<u8>, t: Seq<u8>)
    ensures
        spec_decode_pairs(s) matches Ok(p) ==> spec_decode_pairs(s + t) == Ok::<
            (Seq<(Seq<u8>, SpecBencode)>, Seq<u8>),
            DecodeError,
        >((p.0, p.1 + t)),
    decreases s.len(), 1int,
{
    if spec_decode_pairs(s) matches Ok(p) {
        let u = s + t;
        assert(s.len() > 0);
        assert(u[0] == s[0]);
        if s[0] == TERM_END {
            assert(u.drop_first() =~= s.drop_first() + t);
        } else {
            if let Ok(q) = spec_decode(s) {
                if q.0 matches SpecBencode::String(_) {
                    lemma_decode_extend(s, t);
                    assert(q.1.len() < s.len());
                    assert((q.1 + t).len() < u.len());
                    if let Ok(q2) = spec_decode(q.1) {
                        lemma_decode_extend(q.1, t);
                        assert(q2.1.len() < q.1.len());
                        assert((q2.1 + t).len() < (q.1 + t).len());
                        lemma_decode_pairs_extend(q2.1, t);
                    }
                }
            }
        }
    }
}

/// Reading a strict prefix of an encoded term never succeeds: a truncated
/// buffer only returns a decode error.
pub proof fn lemma_truncated_encoding_fails(v: SpecBencode, k: int)
    requires
        v.wf(),
        0 <= k < spec_encode(v).len(),
    ensures
        spec_decode(spec_encode(v).take(k)) is Err,
{
    let p = spec_encode(v).take(k);
    if let Ok(q) = spec_decode(p) {
        let u = spec_encode(v).skip(k);
        assert(p + u =~= spec_encode(v));
        lemma_decode_extend(p, u);
        lemma_decode_of_encode(v);
        assert((q.1 + u).len() == 0);
        assert(false);
    }
}

} // verus!
