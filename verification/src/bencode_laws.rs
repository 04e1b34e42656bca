//! The laws of the bencode codec: the decoder accepts exactly the
//! canonical encodings, and decoding and encoding are mutual inverses on
//! well-formed values.

use crate::bencode::{
    dec_digits, digits_val, enc, enc_bytes, enc_pairs, enc_seq, int_digits, is_digit,
    keys_ascending, lex_lt, span_digits, spec_parse, spec_parse_bytes, spec_parse_dict,
    spec_parse_int, spec_parse_items, spec_parse_list, spec_parse_pairs, wf, wf_pairs, wf_seq,
    BencodeError, SpecValue,
};
use vstd::prelude::*;

verus! {

/// The decimal digits of a number: at least one, all digits, the first one
/// `0` only for zero itself, and two or more only from ten upward.
proof fn lemma_dec_digits_props(n: nat)
    ensures
        dec_digits(n).len() >= 1,
        forall|k: int| 0 <= k < dec_digits(n).len() ==> is_digit(#[trigger] dec_digits(n)[k]),
        n > 0 ==> dec_digits(n)[0] != 48,
        dec_digits(n).len() > 1 ==> n >= 10,
    decreases n,
{
    if n >= 10 {
        lemma_dec_digits_props(n / 10);
    }
}

/// Reading back the decimal digits of `n` gives `n`.
proof fn lemma_digits_val_of_dec(n: nat)
    ensures
        digits_val(dec_digits(n)) == n,
    decreases n,
{
    if n < 10 {
        assert(dec_digits(n).drop_last() =~= Seq::<u8>::empty());
        assert(digits_val(Seq::<u8>::empty()) == 0);
        assert(digits_val(dec_digits(n)) == digits_val(dec_digits(n).drop_last()) * 10 + (
        dec_digits(n).last() - 48) as nat);
    } else {
        lemma_digits_val_of_dec(n / 10);
        assert(dec_digits(n).drop_last() =~= dec_digits(n / 10));
        vstd::arithmetic::div_mod::lemma_fundamental_div_mod(n as int, 10);
    }
}

/// A digit run that starts above `0` denotes a positive number.
proof fn lemma_digits_val_pos(s: Seq<u8>)
    requires
        s.len() >= 1,
        forall|k: int| 0 <= k < s.len() ==> is_digit(#[trigger] s[k]),
        s[0] != 48,
    ensures
        digits_val(s) >= 1,
    decreases s.len(),
{
    if s.len() > 1 {
        assert(s.drop_last()[0] == s[0]);
        lemma_digits_val_pos(s.drop_last());
    }
}

/// A canonical digit run is the decimal representation of its value:
/// writing the value read from it gives the run back.
proof fn lemma_dec_of_digits_val(s: Seq<u8>)
    requires
        s.len() >= 1,
        forall|k: int| 0 <= k < s.len() ==> is_digit(#[trigger] s[k]),
        s.len() > 1 ==> s[0] != 48,
    ensures
        dec_digits(digits_val(s)) == s,
    decreases s.len(),
{
    if s.len() == 1 {
        assert(s.drop_last() =~= Seq::<u8>::empty());
        assert(digits_val(Seq::<u8>::empty()) == 0);
        assert(digits_val(s) == digits_val(s.drop_last()) * 10 + (s.last() - 48) as nat);
        assert(digits_val(s) == (s[0] - 48) as nat);
        assert(dec_digits(digits_val(s)) =~= s);
    } else {
        let a = s.drop_last();
        let d = (s.last() - 48) as nat;
        let v = digits_val(s);
        assert(a[0] == s[0]);
        lemma_digits_val_pos(a);
        lemma_dec_of_digits_val(a);
        assert(v == digits_val(a) * 10 + d);
        assert(digits_val(a) * 10 >= 10) by (nonlinear_arith)
            requires
                digits_val(a) >= 1,
        ;
        vstd::arithmetic::div_mod::lemma_fundamental_div_mod_converse(
            v as int,
            10,
            digits_val(a) as int,
            d as int,
        );
        assert(v / 10 == digits_val(a) && v % 10 == d);
        assert(dec_digits(v) == dec_digits(digits_val(a)) + seq![(48 + d) as u8]);
        assert(dec_digits(v) =~= s);
    }
}

/// Every byte before the end of a digit span is a digit, and the byte at
/// its end, if any, is not.
proof fn lemma_span_digits_all(data: Seq<u8>, i: int)
    requires
        0 <= i <= data.len(),
    ensures
        i <= span_digits(data, i) <= data.len(),
        forall|k: int| i <= k < span_digits(data, i) ==> is_digit(#[trigger] data[k]),
        span_digits(data, i) < data.len() ==> !is_digit(data[span_digits(data, i)]),
    decreases data.len() - i,
{
    if i < data.len() && is_digit(data[i]) {
        lemma_span_digits_all(data, i + 1);
    }
}

/// A digit span ends exactly where the digits end.
proof fn lemma_span_digits_exact(data: Seq<u8>, i: int, j: int)
    requires
        0 <= i <= j <= data.len(),
        forall|k: int| i <= k < j ==> is_digit(#[trigger] data[k]),
        j == data.len() || !is_digit(data[j]),
    ensures
        span_digits(data, i) == j,
    decreases j - i,
{
    if i < j {
        lemma_span_digits_exact(data, i + 1, j);
    }
}

/// The first byte of an encoding marks its variant, and is never the
/// terminator `e`.
proof fn lemma_enc_first(v: SpecValue)
    ensures
        enc(v).len() >= 1,
        match v {
            SpecValue::Int(_) => enc(v)[0] == 105,
            SpecValue::Bytes(_) => is_digit(enc(v)[0]),
            SpecValue::List(_) => enc(v)[0] == 108,
            SpecValue::Dict(_) => enc(v)[0] == 100,
        },
        enc(v)[0] != 101,
{
    match v {
        SpecValue::Bytes(s) => {
            lemma_dec_digits_props(s.len());
            assert(enc_bytes(s)[0] == dec_digits(s.len())[0]);
        },
        _ => {},
    }
}

/// The strict lexicographic order on byte strings is transitive.
pub proof fn lemma_lex_lt_trans(a: Seq<u8>, b: Seq<u8>, c: Seq<u8>)
    requires
        lex_lt(a, b),
        lex_lt(b, c),
    ensures
        lex_lt(a, c),
    decreases a.len(),
{
    if a.len() > 0 && b.len() > 0 && c.len() > 0 {
        if a[0] == b[0] && b[0] == c[0] {
            lemma_lex_lt_trans(a.drop_first(), b.drop_first(), c.drop_first());
        }
    }
}

/// A byte string the parser accepts is read back from exactly its own
/// canonical encoding.
proof fn lemma_parse_bytes_sound(data: Seq<u8>)
    ensures
        spec_parse_bytes(data) matches Ok((s, n)) ==> 2 <= n <= data.len() && enc_bytes(s)
            == data.take(n),
{
    lemma_span_digits_all(data, 0);
    let de = span_digits(data, 0);
    if spec_parse_bytes(data) is Ok {
        let digits = data.take(de);
        assert(digits.len() == de);
        assert(forall|k: int| 0 <= k < de ==> is_digit(#[trigger] digits[k]));
        let len = digits_val(digits);
        lemma_dec_of_digits_val(digits);
        let n = de + 1 + len;
        let s = data.subrange(de + 1, n);
        assert(s.len() == len);
        assert(enc_bytes(s) =~= data.take(n));
    }
}

/// An integer the parser accepts is a well-formed 64-bit value read back
/// from exactly its own canonical encoding.
proof fn lemma_parse_int_sound(data: Seq<u8>)
    ensures
        spec_parse_int(data) matches Ok((sv, n)) ==> 3 <= n <= data.len() && wf(sv) && sv is Int
            && enc(sv) == data.take(n),
{
    if spec_parse_int(data) is Ok {
        let neg = data.len() > 1 && data[1] == 45;
        let ds = if neg { 2int } else { 1int };
        lemma_span_digits_all(data, ds);
        let de = span_digits(data, ds);
        let digits = data.subrange(ds, de);
        assert(forall|k: int| 0 <= k < digits.len() ==> is_digit(#[trigger] digits[k]));
        let m = digits_val(digits);
        lemma_dec_of_digits_val(digits);
        let i: int = if neg { -(m as int) } else { m as int };
        let sv = SpecValue::Int(i);
        if neg {
            assert(int_digits(i) == seq![45u8] + dec_digits(m));
        }
        assert(enc(sv) =~= data.take(de + 1));
    }
}

/// Mutual soundness of the value parser: an accepted value is well formed
/// and the consumed bytes are exactly its canonical encoding.
proof fn lemma_parse_sound(data: Seq<u8>)
    ensures
        spec_parse(data) matches Ok((sv, n)) ==> 1 <= n <= data.len() && wf(sv) && enc(sv)
            == data.take(n),
    decreases data.len(), 1int,
{
    if data.len() == 0 {
    } else if data[0] == 105 {
        lemma_parse_int_sound(data);
    } else if data[0] == 108 {
        lemma_parse_list_sound(data);
    } else if data[0] == 100 {
        lemma_parse_dict_sound(data);
    } else if is_digit(data[0]) {
        lemma_parse_bytes_sound(data);
        if spec_parse_bytes(data) is Ok {
            let (s, n) = spec_parse_bytes(data)->Ok_0;
            assert(enc(SpecValue::Bytes(s)) == enc_bytes(s));
        }
    }
}

/// Soundness of the list parser.
proof fn lemma_parse_list_sound(data: Seq<u8>)
    ensures
        spec_parse_list(data) matches Ok((sv, n)) ==> 2 <= n <= data.len() && wf(sv) && enc(sv)
            == data.take(n),
    decreases data.len(), 0int,
{
    if data.len() > 0 && data[0] == 108 {
        lemma_parse_items_sound(data.skip(1));
        if spec_parse_items(data.skip(1)) is Ok {
            let (items, m) = spec_parse_items(data.skip(1))->Ok_0;
            let sv = SpecValue::List(items);
            assert(enc_seq(items) + seq![101u8] == data.skip(1).take(m));
            assert(enc(sv) =~= seq![108u8] + (enc_seq(items) + seq![101u8]));
            assert(data.take(1 + m) =~= seq![data[0]] + data.skip(1).take(m));
            assert(enc(sv) == data.take(1 + m));
        }
    }
}

/// Soundness of the dictionary parser.
proof fn lemma_parse_dict_sound(data: Seq<u8>)
    ensures
        spec_parse_dict(data) matches Ok((sv, n)) ==> 2 <= n <= data.len() && wf(sv) && enc(sv)
            == data.take(n),
    decreases data.len(), 0int,
{
    if data.len() > 0 && data[0] == 100 {
        lemma_parse_pairs_sound(data.skip(1), None);
        if spec_parse_pairs(data.skip(1), None) is Ok {
            let (pairs, m) = spec_parse_pairs(data.skip(1), None)->Ok_0;
            let sv = SpecValue::Dict(pairs);
            assert(enc_pairs(pairs) + seq![101u8] == data.skip(1).take(m));
            assert(enc(sv) =~= seq![100u8] + (enc_pairs(pairs) + seq![101u8]));
            assert(data.take(1 + m) =~= seq![data[0]] + data.skip(1).take(m));
            assert(enc(sv) == data.take(1 + m));
        }
    }
}

/// Soundness of the list-items parser: the accepted items are well formed
/// and the consumed bytes are their encodings followed by the terminator.
proof fn lemma_parse_items_sound(data: Seq<u8>)
    ensures
        spec_parse_items(data) matches Ok((items, m)) ==> 1 <= m <= data.len() && wf_seq(items)
            && enc_seq(items) + seq![101u8] == data.take(m),
    decreases data.len(), 2int,
{
    if data.len() == 0 {
    } else if data[0] == 101 {
        assert(enc_seq(Seq::<SpecValue>::empty()) + seq![101u8] =~= data.take(1));
    } else {
        lemma_parse_sound(data);
        if spec_parse(data) is Ok {
            let (v, n) = spec_parse(data)->Ok_0;
            if 1 <= n <= data.len() {
                lemma_parse_items_sound(data.skip(n));
                if spec_parse_items(data.skip(n)) is Ok {
                    let (items2, m2) = spec_parse_items(data.skip(n))->Ok_0;
                    let items = seq![v] + items2;
                    assert(items.drop_first() =~= items2);
                    assert(wf_seq(items));
                    assert(enc_seq(items) == enc(v) + enc_seq(items2));
                    assert(enc_seq(items2) + seq![101u8] == data.skip(n).take(m2));
                    assert(enc_seq(items) + seq![101u8] =~= enc(v) + (enc_seq(items2) + seq![
                        101u8,
                    ]));
                    assert(data.take(n) + data.skip(n).take(m2) =~= data.take(n + m2));
                    assert(enc_seq(items) + seq![101u8] == data.take(n + m2));
                }
            }
        }
    }
}

/// Soundness of the dictionary-pairs parser: the accepted pairs are well
/// formed, their keys ascend strictly and lie above `prev`, and the
/// consumed bytes are their encodings followed by the terminator.
proof fn lemma_parse_pairs_sound(data: Seq<u8>, prev: Option<Seq<u8>>)
    ensures
        spec_parse_pairs(data, prev) matches Ok((pairs, m)) ==> 1 <= m <= data.len() && wf_pairs(
            pairs,
        ) && keys_ascending(pairs) && (prev matches Some(p) ==> forall|t: int|
            0 <= t < pairs.len() ==> lex_lt(p, #[trigger] pairs[t].0)) && enc_pairs(pairs) + seq![
            101u8,
        ] == data.take(m),
    decreases data.len(), 2int,
{
    if data.len() == 0 {
    } else if data[0] == 101 {
        assert(enc_pairs(Seq::<(Seq<u8>, SpecValue)>::empty()) + seq![101u8] =~= data.take(1));
    } else if is_digit(data[0]) {
        lemma_parse_bytes_sound(data);
        if spec_parse_bytes(data) is Ok {
            let (k, n) = spec_parse_bytes(data)->Ok_0;
            if 1 <= n <= data.len() && !(prev matches Some(p) && !lex_lt(p, k)) {
                lemma_parse_sound(data.skip(n));
                if spec_parse(data.skip(n)) is Ok {
                    let (v, m2) = spec_parse(data.skip(n))->Ok_0;
                    if 1 <= m2 && n + m2 <= data.len() {
                        lemma_parse_pairs_sound(data.skip(n + m2), Some(k));
                        if spec_parse_pairs(data.skip(n + m2), Some(k)) is Ok {
                            let (pairs2, t2) = spec_parse_pairs(data.skip(n + m2), Some(k))->Ok_0;
                            let pairs = seq![(k, v)] + pairs2;
                            assert(pairs.drop_first() =~= pairs2);
                            assert(wf_pairs(pairs));
                            assert forall|a: int, b: int| 0 <= a < b < pairs.len() implies lex_lt(
                                #[trigger] pairs[a].0,
                                #[trigger] pairs[b].0,
                            ) by {
                                if a == 0 {
                                    assert(pairs[b].0 == pairs2[b - 1].0);
                                    assert(lex_lt(k, pairs2[b - 1].0));
                                } else {
                                    assert(pairs[a].0 == pairs2[a - 1].0);
                                    assert(pairs[b].0 == pairs2[b - 1].0);
                                }
                            }
                            if prev is Some {
                                let p = prev->0;
                                assert forall|t: int| 0 <= t < pairs.len() implies lex_lt(
                                    p,
                                    #[trigger] pairs[t].0,
                                ) by {
                                    if t == 0 {
                                        assert(pairs[0].0 == k);
                                    } else {
                                        assert(pairs[t].0 == pairs2[t - 1].0);
                                        assert(lex_lt(k, pairs2[t - 1].0));
                                        lemma_lex_lt_trans(p, k, pairs2[t - 1].0);
                                    }
                                }
                            }
                            assert(enc_pairs(pairs) == enc_bytes(k) + enc(v) + enc_pairs(pairs2));
                            assert(enc_bytes(k) == data.take(n));
                            assert(enc(v) == data.skip(n).take(m2));
                            assert(enc_pairs(pairs2) + seq![101u8] == data.skip(n + m2).take(t2));
                            assert(enc_pairs(pairs) + seq![101u8] =~= enc_bytes(k) + (enc(v) + (
                            enc_pairs(pairs2) + seq![101u8])));
                            assert(data.take(n) + (data.skip(n).take(m2) + data.skip(n + m2).take(
                                t2,
                            )) =~= data.take(n + m2 + t2));
                            assert(enc_pairs(pairs) + seq![101u8] == data.take(n + m2 + t2));
                        }
                    }
                }
            }
        }
    }
}

/// The byte-string parser accepts the canonical encoding of any byte
/// string and reads the string back.
proof fn lemma_bytes_complete(s: Seq<u8>, rest: Seq<u8>)
    ensures
        spec_parse_bytes(enc_bytes(s) + rest) == Ok::<(Seq<u8>, int), BencodeError>(
            (s, enc_bytes(s).len() as int),
        ),
{
    let data = enc_bytes(s) + rest;
    let dd = dec_digits(s.len());
    lemma_dec_digits_props(s.len());
    let dl = dd.len() as int;
    assert(forall|k: int| 0 <= k < dl ==> data[k] == dd[k]);
    assert(data[dl] == 58);
    lemma_span_digits_exact(data, 0, dl);
    assert(data.take(dl) =~= dd);
    lemma_digits_val_of_dec(s.len());
    assert(digits_val(data.take(dl)) == s.len());
    assert(data.subrange(dl + 1, dl + 1 + s.len()) =~= s);
}

/// The integer parser accepts the canonical encoding of any 64-bit
/// integer and reads the integer back.
proof fn lemma_int_complete(i: int, rest: Seq<u8>)
    requires
        i64::MIN <= i <= i64::MAX,
    ensures
        spec_parse_int(enc(SpecValue::Int(i)) + rest) == Ok::<(SpecValue, int), BencodeError>(
            (SpecValue::Int(i), enc(SpecValue::Int(i)).len() as int),
        ),
{
    let data = enc(SpecValue::Int(i)) + rest;
    let m: nat = if i < 0 {
        (-i) as nat
    } else {
        i as nat
    };
    let dd = dec_digits(m);
    lemma_dec_digits_props(m);
    lemma_digits_val_of_dec(m);
    let ds: int = if i < 0 {
        2
    } else {
        1
    };
    let de: int = ds + dd.len();
    assert(data[0] == 105);
    if i < 0 {
        assert(int_digits(i) == seq![45u8] + dec_digits(m));
        assert(data[1] == 45);
    } else {
        assert(data[1] == dd[0]);
        assert(data[1] != 45);
    }
    assert(forall|k: int| ds <= k < de ==> data[k] == dd[k - ds]);
    assert(data[de] == 101);
    lemma_span_digits_exact(data, ds, de);
    assert(data.subrange(ds, de) =~= dd);
    assert(digits_val(data.subrange(ds, de)) == m);
    if i < 0 {
        assert(m >= 1);
        assert(m <= 0x8000_0000_0000_0000);
        assert(-(m as int) == i);
    } else {
        assert(m <= i64::MAX);
    }
    assert(de + 1 == enc(SpecValue::Int(i)).len());
}

/// Mutual completeness of the value parser: the canonical encoding of any
/// well-formed value, with anything after it, is accepted and read back
/// as exactly that value.
proof fn lemma_parse_complete(sv: SpecValue, rest: Seq<u8>)
    requires
        wf(sv),
    ensures
        spec_parse(enc(sv) + rest) == Ok::<(SpecValue, int), BencodeError>(
            (sv, enc(sv).len() as int),
        ),
    decreases sv,
{
    let data = enc(sv) + rest;
    lemma_enc_first(sv);
    match sv {
        SpecValue::Int(i) => {
            lemma_int_complete(i, rest);
        },
        SpecValue::Bytes(s) => {
            assert(enc(sv) == enc_bytes(s));
            lemma_bytes_complete(s, rest);
            assert(is_digit(data[0]));
        },
        SpecValue::List(items) => {
            assert(data[0] == 108);
            let inner = enc_seq(items) + seq![101u8] + rest;
            assert(data.skip(1) =~= inner);
            lemma_items_complete(items, rest);
            assert(1 + (enc_seq(items).len() + 1) == enc(sv).len());
        },
        SpecValue::Dict(pairs) => {
            assert(data[0] == 100);
            let inner = enc_pairs(pairs) + seq![101u8] + rest;
            assert(data.skip(1) =~= inner);
            lemma_pairs_complete(pairs, None, rest);
            assert(1 + (enc_pairs(pairs).len() + 1) == enc(sv).len());
        },
    }
}

/// Completeness of the list-items parser: the concatenated encodings of
/// well-formed items, the terminator, and anything after are accepted and
/// read back as exactly those items.
proof fn lemma_items_complete(items: Seq<SpecValue>, rest: Seq<u8>)
    requires
        wf_seq(items),
    ensures
        spec_parse_items(enc_seq(items) + seq![101u8] + rest) == Ok::<
            (Seq<SpecValue>, int),
            BencodeError,
        >((items, enc_seq(items).len() + 1 as int)),
    decreases items,
{
    let data = enc_seq(items) + seq![101u8] + rest;
    if items.len() == 0 {
        assert(enc_seq(items) == Seq::<u8>::empty());
        assert(data[0] == 101);
        assert(items =~= Seq::<SpecValue>::empty());
    } else {
        let h = items[0];
        let t = items.drop_first();
        assert(enc_seq(items) == enc(h) + enc_seq(t));
        let tail = enc_seq(t) + seq![101u8] + rest;
        assert(data =~= enc(h) + tail);
        lemma_enc_first(h);
        assert(data[0] == enc(h)[0]);
        assert(data[0] != 101);
        lemma_parse_complete(h, tail);
        let n0 = enc(h).len() as int;
        assert(spec_parse(data) == Ok::<(SpecValue, int), BencodeError>((h, n0)));
        assert(data.skip(n0) =~= tail);
        lemma_items_complete(t, rest);
        assert(spec_parse_items(data.skip(n0)) == Ok::<(Seq<SpecValue>, int), BencodeError>(
            (t, enc_seq(t).len() + 1 as int),
        ));
        assert(seq![h] + t =~= items);
        assert(n0 + (enc_seq(t).len() + 1) == enc_seq(items).len() + 1);
    }
}

/// Completeness of the dictionary-pairs parser: the concatenated
/// encodings of well-formed pairs with strictly ascending keys above
/// `prev`, the terminator, and anything after are accepted and read back
/// as exactly those pairs.
proof fn lemma_pairs_complete(pairs: Seq<(Seq<u8>, SpecValue)>, prev: Option<Seq<u8>>, rest: Seq<
    u8,
>)
    requires
        wf_pairs(pairs),
        keys_ascending(pairs),
        pairs.len() > 0 && prev is Some ==> lex_lt(prev->0, pairs[0].0),
    ensures
        spec_parse_pairs(enc_pairs(pairs) + seq![101u8] + rest, prev) == Ok::<
            (Seq<(Seq<u8>, SpecValue)>, int),
            BencodeError,
        >((pairs, enc_pairs(pairs).len() + 1 as int)),
    decreases pairs,
{
    let data = enc_pairs(pairs) + seq![101u8] + rest;
    if pairs.len() == 0 {
        assert(enc_pairs(pairs) == Seq::<u8>::empty());
        assert(data[0] == 101);
        assert(pairs =~= Seq::<(Seq<u8>, SpecValue)>::empty());
    } else {
        let k = pairs[0].0;
        let v = pairs[0].1;
        let t = pairs.drop_first();
        assert(enc_pairs(pairs) == enc_bytes(k) + enc(v) + enc_pairs(t));
        let tail1 = enc(v) + (enc_pairs(t) + seq![101u8] + rest);
        assert(data =~= enc_bytes(k) + tail1);
        lemma_dec_digits_props(k.len());
        assert(data[0] == enc_bytes(k)[0]);
        assert(enc_bytes(k)[0] == dec_digits(k.len())[0]);
        assert(is_digit(data[0]) && data[0] != 101);
        lemma_bytes_complete(k, tail1);
        let nk = enc_bytes(k).len() as int;
        assert(spec_parse_bytes(data) == Ok::<(Seq<u8>, int), BencodeError>((k, nk)));
        assert(!(prev matches Some(p) && !lex_lt(p, k)));
        let tail2 = enc_pairs(t) + seq![101u8] + rest;
        assert(data.skip(nk) =~= enc(v) + tail2);
        lemma_parse_complete(v, tail2);
        let nv = enc(v).len() as int;
        assert(spec_parse(data.skip(nk)) == Ok::<(SpecValue, int), BencodeError>((v, nv)));
        assert(data.skip(nk + nv) =~= tail2);
        assert forall|a: int, b: int| 0 <= a < b < t.len() implies lex_lt(
            #[trigger] t[a].0,
            #[trigger] t[b].0,
        ) by {
            assert(t[a].0 == pairs[a + 1].0);
            assert(t[b].0 == pairs[b + 1].0);
        }
        if t.len() > 0 {
            assert(t[0].0 == pairs[1].0);
            assert(lex_lt(k, t[0].0));
        }
        lemma_pairs_complete(t, Some(k), rest);
        assert(spec_parse_pairs(data.skip(nk + nv), Some(k)) == Ok::<
            (Seq<(Seq<u8>, SpecValue)>, int),
            BencodeError,
        >((t, enc_pairs(t).len() + 1 as int)));
        assert((k, v) == pairs[0]);
        assert(seq![(k, v)] + t =~= pairs);
        assert(nk + nv + (enc_pairs(t).len() + 1) == enc_pairs(pairs).len() + 1);
    }
}

/// Round trip, decoder first: every byte stream the decoder accepts is
/// canonical, and re-encoding the decoded value reproduces exactly the
/// consumed bytes.
pub proof fn theorem_encode_of_decode(data: Seq<u8>)
    ensures
        spec_parse(data) matches Ok((sv, n)) ==> 1 <= n <= data.len() && wf(sv) && enc(sv)
            == data.take(n),
{
    lemma_parse_sound(data);
}

/// Round trip, encoder first: decoding the canonical encoding of any
/// well-formed value gives that value back, whole.
pub proof fn theorem_decode_of_encode(sv: SpecValue)
    requires
        wf(sv),
    ensures
        spec_parse(enc(sv)) == Ok::<(SpecValue, int), BencodeError>(
            (sv, enc(sv).len() as int),
        ),
{
    lemma_parse_complete(sv, Seq::empty());
    assert(enc(sv) + Seq::<u8>::empty() =~= enc(sv));
}

/// Dictionary canonicity: every dictionary the decoder yields lists its
/// keys in strictly ascending byte-wise order, and the encoder emits the
/// pairs of such a dictionary in exactly that stored order, so encoded
/// dictionaries always carry their keys strictly ascending.
pub proof fn theorem_dict_canonicity(data: Seq<u8>)
    ensures
        spec_parse(data) matches Ok((sv, n)) ==> match sv {
            SpecValue::Dict(pairs) => keys_ascending(pairs) && enc(sv) == data.take(n),
            _ => true,
        },
{
    lemma_parse_sound(data);
}

} // verus!
