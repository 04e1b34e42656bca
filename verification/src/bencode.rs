//! Bencode: the self-describing byte format used by torrent metainfo files
//! and tracker responses.
//!
//! A decoder turns a byte slice into a [`Value`] tree and an encoder
//! serialises the tree back.  Both are specified against the mathematical
//! model [`SpecValue`]: the decoder accepts exactly the canonical encodings
//! (integers without redundant zeros, dictionary keys in strictly ascending
//! byte order), and the encoder emits exactly the canonical encoding, so the
//! two are mutual inverses.

use vstd::prelude::*;

verus! {

/// A signed 64-bit bencode integer.
pub type BencodeInt = i64;

/// A bencode byte string: raw octets, not necessarily UTF-8.
pub type BencodeString = Vec<u8>;

/// A bencode list of values.
pub type BencodeList = Vec<Value>;

/// A bencode dictionary: key/value pairs kept in strictly ascending
/// byte-wise key order.
pub type BencodeDict = Vec<(Vec<u8>, Value)>;

/// A bencode value tree.
#[derive(Debug, PartialEq, Eq)]
pub enum Value {
    Int(BencodeInt),
    String(BencodeString),
    List(BencodeList),
    Dict(BencodeDict),
}

/// The mathematical content of a [`Value`]: the same tree over `int`,
/// `Seq` and pairs, with no executable containers.
pub enum SpecValue {
    Int(int),
    Bytes(Seq<u8>),
    List(Seq<SpecValue>),
    Dict(Seq<(Seq<u8>, SpecValue)>),
}

impl Value {
    /// The mathematical content of this value.
    pub open spec fn model(self) -> SpecValue
        decreases self,
    {
        match self {
            Value::Int(i) => SpecValue::Int(i as int),
            Value::String(s) => SpecValue::Bytes(s@),
            Value::List(l) => SpecValue::List(model_seq(l@)),
            Value::Dict(d) => SpecValue::Dict(model_pairs(d@)),
        }
    }
}

/// The models of a sequence of values, element by element.
pub open spec fn model_seq(s: Seq<Value>) -> Seq<SpecValue>
    decreases s,
{
    if s.len() == 0 {
        Seq::empty()
    } else {
        seq![s[0].model()] + model_seq(s.drop_first())
    }
}

/// The models of a sequence of key/value pairs, element by element.
pub open spec fn model_pairs(s: Seq<(Vec<u8>, Value)>) -> Seq<(Seq<u8>, SpecValue)>
    decreases s,
{
    if s.len() == 0 {
        Seq::empty()
    } else {
        seq![(s[0].0@, s[0].1.model())] + model_pairs(s.drop_first())
    }
}

impl View for Value {
    type V = SpecValue;

    open spec fn view(&self) -> SpecValue {
        self.model()
    }
}

/// Strict byte-wise lexicographic order on byte strings: the order in which
/// a bencode dictionary must list its keys.
pub open spec fn lex_lt(a: Seq<u8>, b: Seq<u8>) -> bool
    decreases a.len(),
{
    if b.len() == 0 {
        false
    } else if a.len() == 0 {
        true
    } else if a[0] < b[0] {
        true
    } else if a[0] > b[0] {
        false
    } else {
        lex_lt(a.drop_first(), b.drop_first())
    }
}

/// Well-formedness of a value model: every integer fits in a signed 64-bit
/// word and every dictionary lists its keys in strictly ascending byte
/// order.  Every value the decoder produces is well formed, and
/// well-formed values round-trip through the codec.
pub open spec fn wf(v: SpecValue) -> bool
    decreases v,
{
    match v {
        SpecValue::Int(i) => i64::MIN <= i <= i64::MAX,
        SpecValue::Bytes(s) => true,
        SpecValue::List(items) => wf_seq(items),
        SpecValue::Dict(pairs) => wf_pairs(pairs) && keys_ascending(pairs),
    }
}

/// Well-formedness of every element of a sequence of value models.
pub open spec fn wf_seq(items: Seq<SpecValue>) -> bool
    decreases items,
{
    if items.len() == 0 {
        true
    } else {
        wf(items[0]) && wf_seq(items.drop_first())
    }
}

/// Well-formedness of every value of a sequence of key/value pair models.
pub open spec fn wf_pairs(pairs: Seq<(Seq<u8>, SpecValue)>) -> bool
    decreases pairs,
{
    if pairs.len() == 0 {
        true
    } else {
        wf(pairs[0].1) && wf_pairs(pairs.drop_first())
    }
}

/// The keys of a pair sequence are in strictly ascending byte-wise order.
pub open spec fn keys_ascending(pairs: Seq<(Seq<u8>, SpecValue)>) -> bool {
    forall|i: int, j: int|
        0 <= i < j < pairs.len() ==> lex_lt(#[trigger] pairs[i].0, #[trigger] pairs[j].0)
}

/// The decimal digits of `n`, most significant first, with no leading zero
/// (the single digit `0` stands for zero itself).
pub open spec fn dec_digits(n: nat) -> Seq<u8>
    decreases n,
{
    if n < 10 {
        seq![(48 + n) as u8]
    } else {
        dec_digits(n / 10) + seq![(48 + n % 10) as u8]
    }
}

/// The decimal representation of a signed integer: a minus sign before the
/// digits of the magnitude when negative.
pub open spec fn int_digits(i: int) -> Seq<u8> {
    if i < 0 {
        seq![45u8] + dec_digits((-i) as nat)
    } else {
        dec_digits(i as nat)
    }
}

/// The number denoted by a sequence of decimal digit bytes, most
/// significant first.
pub open spec fn digits_val(s: Seq<u8>) -> nat
    decreases s.len(),
{
    if s.len() == 0 {
        0
    } else {
        digits_val(s.drop_last()) * 10 + (s.last() - 48) as nat
    }
}

/// Whether `c` is an ASCII decimal digit.
pub open spec fn is_digit(c: u8) -> bool {
    48 <= c <= 57
}

/// The canonical encoding of a byte string: its length in decimal, a
/// colon, then the bytes themselves.
pub open spec fn enc_bytes(s: Seq<u8>) -> Seq<u8> {
    dec_digits(s.len()) + seq![58u8] + s
}

/// The canonical encoding of a value model:
/// `i<decimal>e` for integers, `<len>:<bytes>` for byte strings,
/// `l<items>e` for lists and `d<pairs>e` for dictionaries.
pub open spec fn enc(v: SpecValue) -> Seq<u8>
    decreases v,
{
    match v {
        SpecValue::Int(i) => seq![105u8] + int_digits(i) + seq![101u8],
        SpecValue::Bytes(s) => enc_bytes(s),
        SpecValue::List(items) => seq![108u8] + enc_seq(items) + seq![101u8],
        SpecValue::Dict(pairs) => seq![100u8] + enc_pairs(pairs) + seq![101u8],
    }
}

/// The concatenated encodings of a sequence of value models.
pub open spec fn enc_seq(items: Seq<SpecValue>) -> Seq<u8>
    decreases items,
{
    if items.len() == 0 {
        Seq::empty()
    } else {
        enc(items[0]) + enc_seq(items.drop_first())
    }
}

/// The concatenated encodings of a sequence of key/value pairs: each key as
/// a byte string, immediately followed by its value.
pub open spec fn enc_pairs(pairs: Seq<(Seq<u8>, SpecValue)>) -> Seq<u8>
    decreases pairs,
{
    if pairs.len() == 0 {
        Seq::empty()
    } else {
        enc_bytes(pairs[0].0) + enc(pairs[0].1) + enc_pairs(pairs.drop_first())
    }
}

/// The first index at or after `i` that does not hold a decimal digit
/// (or `data.len()` when the digits run to the end).
pub open spec fn span_digits(data: Seq<u8>, i: int) -> int
    decreases data.len() - i,
{
    if i < 0 || i >= data.len() {
        data.len() as int
    } else if is_digit(data[i]) {
        span_digits(data, i + 1)
    } else {
        i
    }
}

/// Parse a byte string `<len>:<bytes>` from the front of `data`: the
/// payload and the number of bytes consumed.  The length must be written
/// without a redundant leading zero and the payload must be present in
/// full.
pub open spec fn spec_parse_bytes(data: Seq<u8>) -> Result<(Seq<u8>, int), BencodeError> {
    let de = span_digits(data, 0);
    if de == 0 {
        Err(BencodeError::InvalidString)
    } else if de >= data.len() {
        Err(BencodeError::UnexpectedEOF)
    } else if data[de] != 58 {
        Err(BencodeError::InvalidString)
    } else if de > 1 && data[0] == 48 {
        Err(BencodeError::InvalidString)
    } else {
        let len = digits_val(data.take(de));
        if de + 1 + len > data.len() {
            Err(BencodeError::UnexpectedEOF)
        } else {
            Ok((data.subrange(de + 1, de + 1 + len), de + 1 + len))
        }
    }
}

/// Parse an integer `i<decimal>e` from the front of `data`.  The decimal
/// must be canonical: no redundant leading zero, no `-0`, and a value that
/// fits in a signed 64-bit word.
pub open spec fn spec_parse_int(data: Seq<u8>) -> Result<(SpecValue, int), BencodeError> {
    if data.len() == 0 {
        Err(BencodeError::UnexpectedEOF)
    } else if data[0] != 105 {
        Err(BencodeError::InvalidInteger)
    } else {
        let neg = data.len() > 1 && data[1] == 45;
        let ds = if neg { 2int } else { 1int };
        let de = span_digits(data, ds);
        if de >= data.len() {
            Err(BencodeError::UnexpectedEOF)
        } else if data[de] != 101 {
            Err(BencodeError::InvalidInteger)
        } else if de == ds {
            Err(BencodeError::InvalidInteger)
        } else if de > ds + 1 && data[ds] == 48 {
            Err(BencodeError::InvalidInteger)
        } else {
            let m = digits_val(data.subrange(ds, de));
            if neg && m == 0 {
                Err(BencodeError::InvalidInteger)
            } else if !neg && m > i64::MAX {
                Err(BencodeError::InvalidInteger)
            } else if neg && m > 0x8000_0000_0000_0000 {
                Err(BencodeError::InvalidInteger)
            } else {
                Ok((SpecValue::Int(if neg { -(m as int) } else { m as int }), de + 1))
            }
        }
    }
}

/// Parse one canonical bencode value from the front of `data`: the value
/// model and the number of bytes consumed.  The first byte selects the
/// variant; a byte that can start no value is the `InvalidFormat` error.
pub open spec fn spec_parse(data: Seq<u8>) -> Result<(SpecValue, int), BencodeError>
    decreases data.len(), 1int,
{
    if data.len() == 0 {
        Err(BencodeError::UnexpectedEOF)
    } else if data[0] == 105 {
        spec_parse_int(data)
    } else if data[0] == 108 {
        spec_parse_list(data)
    } else if data[0] == 100 {
        spec_parse_dict(data)
    } else if is_digit(data[0]) {
        match spec_parse_bytes(data) {
            Ok((s, n)) => Ok((SpecValue::Bytes(s), n)),
            Err(e) => Err(e),
        }
    } else {
        Err(BencodeError::InvalidFormat(data[0]))
    }
}

/// Parse a list `l<items>e` from the front of `data`.
pub open spec fn spec_parse_list(data: Seq<u8>) -> Result<(SpecValue, int), BencodeError>
    decreases data.len(), 0int,
{
    if data.len() == 0 || data[0] != 108 {
        Err(BencodeError::InvalidList)
    } else {
        match spec_parse_items(data.skip(1)) {
            Ok((items, n)) => Ok((SpecValue::List(items), 1 + n)),
            Err(e) => Err(e),
        }
    }
}

/// Parse a dictionary `d<pairs>e` from the front of `data`.
pub open spec fn spec_parse_dict(data: Seq<u8>) -> Result<(SpecValue, int), BencodeError>
    decreases data.len(), 0int,
{
    if data.len() == 0 || data[0] != 100 {
        Err(BencodeError::InvalidDictionary)
    } else {
        match spec_parse_pairs(data.skip(1), None) {
            Ok((pairs, n)) => Ok((SpecValue::Dict(pairs), 1 + n)),
            Err(e) => Err(e),
        }
    }
}

/// Parse the elements of a list up to and including the closing `e`:
/// the element models and the number of bytes consumed.
pub open spec fn spec_parse_items(data: Seq<u8>) -> Result<(Seq<SpecValue>, int), BencodeError>
    decreases data.len(), 2int,
{
    if data.len() == 0 {
        Err(BencodeError::InvalidList)
    } else if data[0] == 101 {
        Ok((Seq::empty(), 1))
    } else {
        match spec_parse(data) {
            Ok((v, n)) => if n < 1 || n > data.len() {
                Err(BencodeError::InvalidList)
            } else {
                match spec_parse_items(data.skip(n)) {
                    Ok((items, m)) => Ok((seq![v] + items, n + m)),
                    Err(e) => Err(e),
                }
            },
            Err(e) => Err(e),
        }
    }
}

/// Parse the pairs of a dictionary up to and including the closing `e`:
/// the pair models and the number of bytes consumed.  Each key must be a
/// byte string lying strictly above `prev` in byte-wise order, so the pairs
/// come out in strictly ascending key order.
pub open spec fn spec_parse_pairs(data: Seq<u8>, prev: Option<Seq<u8>>) -> Result<
    (Seq<(Seq<u8>, SpecValue)>, int),
    BencodeError,
>
    decreases data.len(), 2int,
{
    if data.len() == 0 {
        Err(BencodeError::InvalidDictionary)
    } else if data[0] == 101 {
        Ok((Seq::empty(), 1))
    } else if !is_digit(data[0]) {
        Err(BencodeError::InvalidDictionary)
    } else {
        match spec_parse_bytes(data) {
            Ok((k, n)) => if n < 1 || n > data.len() {
                Err(BencodeError::InvalidDictionary)
            } else if prev matches Some(p) && !lex_lt(p, k) {
                Err(BencodeError::InvalidDictionary)
            } else {
                match spec_parse(data.skip(n)) {
                    Ok((v, m)) => if m < 1 || n + m > data.len() {
                        Err(BencodeError::InvalidDictionary)
                    } else {
                        match spec_parse_pairs(data.skip(n + m), Some(k)) {
                            Ok((pairs, t)) => Ok((seq![(k, v)] + pairs, n + m + t)),
                            Err(e) => Err(e),
                        }
                    },
                    Err(e) => Err(e),
                }
            },
            Err(e) => Err(e),
        }
    }
}

impl Value {
    /// The name of this value's variant, as the error messages use it.
    pub fn name(&self) -> (r: &'static str)
        ensures
            r@ == match self {
                Value::Int(_) => "Integer"@,
                Value::String(_) => "String"@,
                Value::List(_) => "List"@,
                Value::Dict(_) => "Dictionary"@,
            },
    {
        match self {
            Value::Int(_) => "Integer",
            Value::String(_) => "String",
            Value::List(_) => "List",
            Value::Dict(_) => "Dictionary",
        }
    }

    /// Whether this value is an integer.
    pub fn is_int(&self) -> (r: bool)
        ensures
            r == (self is Int),
    {
        if let Value::Int(_) = self {
            return true;
        }
        false
    }

    /// Whether this value is a byte string.
    pub fn is_string(&self) -> (r: bool)
        ensures
            r == (self is String),
    {
        if let Value::String(_) = self {
            return true;
        }
        false
    }

    /// Whether this value is a list.
    pub fn is_list(&self) -> (r: bool)
        ensures
            r == (self is List),
    {
        if let Value::List(_) = self {
            return true;
        }
        false
    }

    /// Whether this value is a dictionary.
    pub fn is_dict(&self) -> (r: bool)
        ensures
            r == (self is Dict),
    {
        if let Value::Dict(_) = self {
            return true;
        }
        false
    }
}

/// Appending one value to a sequence appends its model to the models.
pub proof fn lemma_model_seq_snoc(s: Seq<Value>, x: Value)
    ensures
        model_seq(s.push(x)) == model_seq(s) + seq![x@],
    decreases s.len(),
{
    if s.len() == 0 {
        assert(s.push(x).len() == 1);
        assert(s.push(x)[0] == x);
        assert(s.push(x).drop_first() =~= Seq::<Value>::empty());
        assert(model_seq(s.push(x).drop_first()) == Seq::<SpecValue>::empty());
        assert(model_seq(s.push(x)) == seq![x@] + Seq::<SpecValue>::empty());
        assert(model_seq(s) == Seq::<SpecValue>::empty());
        assert(model_seq(s.push(x)) =~= model_seq(s) + seq![x@]);
    } else {
        assert(s.push(x).drop_first() =~= s.drop_first().push(x));
        lemma_model_seq_snoc(s.drop_first(), x);
        assert(s.push(x)[0] == s[0]);
        assert(model_seq(s.push(x)) == seq![s[0]@] + (model_seq(s.drop_first()) + seq![x@]));
        assert(model_seq(s) == seq![s[0]@] + model_seq(s.drop_first()));
        assert(model_seq(s.push(x)) =~= model_seq(s) + seq![x@]);
    }
}

/// Appending one pair to a sequence appends its model to the models.
pub proof fn lemma_model_pairs_snoc(s: Seq<(Vec<u8>, Value)>, x: (Vec<u8>, Value))
    ensures
        model_pairs(s.push(x)) == model_pairs(s) + seq![(x.0@, x.1@)],
    decreases s.len(),
{
    if s.len() == 0 {
        assert(s.push(x)[0] == x);
        assert(s.push(x).drop_first() =~= Seq::<(Vec<u8>, Value)>::empty());
        assert(model_pairs(s.push(x).drop_first()) == Seq::<(Seq<u8>, SpecValue)>::empty());
        assert(model_pairs(s.push(x)) == seq![(x.0@, x.1@)] + Seq::<(Seq<u8>, SpecValue)>::empty());
        assert(model_pairs(s) == Seq::<(Seq<u8>, SpecValue)>::empty());
        assert(model_pairs(s.push(x)) =~= model_pairs(s) + seq![(x.0@, x.1@)]);
    } else {
        assert(s.push(x).drop_first() =~= s.drop_first().push(x));
        lemma_model_pairs_snoc(s.drop_first(), x);
        assert(s.push(x)[0] == s[0]);
        assert(model_pairs(s.push(x)) == seq![(s[0].0@, s[0].1@)] + (model_pairs(s.drop_first())
            + seq![(x.0@, x.1@)]));
        assert(model_pairs(s) == seq![(s[0].0@, s[0].1@)] + model_pairs(s.drop_first()));
        assert(model_pairs(s.push(x)) =~= model_pairs(s) + seq![(x.0@, x.1@)]);
    }
}

/// The encoding of a sequence of items extended by one is the encoding of
/// the sequence followed by the encoding of the new item.
pub proof fn lemma_enc_seq_snoc(items: Seq<SpecValue>, x: SpecValue)
    ensures
        enc_seq(items.push(x)) == enc_seq(items) + enc(x),
    decreases items.len(),
{
    if items.len() == 0 {
        assert(items.push(x)[0] == x);
        assert(items.push(x).drop_first() =~= Seq::<SpecValue>::empty());
        assert(enc_seq(items.push(x).drop_first()) == Seq::<u8>::empty());
        assert(enc_seq(items.push(x)) == enc(x) + Seq::<u8>::empty());
        assert(enc_seq(items) == Seq::<u8>::empty());
        assert(enc_seq(items.push(x)) =~= enc_seq(items) + enc(x));
    } else {
        assert(items.push(x).drop_first() =~= items.drop_first().push(x));
        lemma_enc_seq_snoc(items.drop_first(), x);
        assert(items.push(x)[0] == items[0]);
        assert(enc_seq(items.push(x)) == enc(items[0]) + (enc_seq(items.drop_first()) + enc(x)));
        assert(enc_seq(items) == enc(items[0]) + enc_seq(items.drop_first()));
        assert(enc_seq(items.push(x)) =~= enc_seq(items) + enc(x));
    }
}

/// The encoding of a sequence of pairs extended by one is the encoding of
/// the sequence followed by the encoding of the new key and value.
pub proof fn lemma_enc_pairs_snoc(pairs: Seq<(Seq<u8>, SpecValue)>, x: (Seq<u8>, SpecValue))
    ensures
        enc_pairs(pairs.push(x)) == enc_pairs(pairs) + enc_bytes(x.0) + enc(x.1),
    decreases pairs.len(),
{
    if pairs.len() == 0 {
        assert(pairs.push(x)[0] == x);
        assert(pairs.push(x).drop_first() =~= Seq::<(Seq<u8>, SpecValue)>::empty());
        assert(enc_pairs(pairs.push(x).drop_first()) == Seq::<u8>::empty());
        assert(enc_pairs(pairs.push(x)) == enc_bytes(x.0) + enc(x.1) + Seq::<u8>::empty());
        assert(enc_pairs(pairs) == Seq::<u8>::empty());
        assert(enc_pairs(pairs.push(x)) =~= enc_pairs(pairs) + enc_bytes(x.0) + enc(x.1));
    } else {
        assert(pairs.push(x).drop_first() =~= pairs.drop_first().push(x));
        lemma_enc_pairs_snoc(pairs.drop_first(), x);
        assert(pairs.push(x)[0] == pairs[0]);
        assert(enc_pairs(pairs.push(x)) == enc_bytes(pairs[0].0) + enc(pairs[0].1) + (enc_pairs(
            pairs.drop_first(),
        ) + enc_bytes(x.0) + enc(x.1)));
        assert(enc_pairs(pairs) == enc_bytes(pairs[0].0) + enc(pairs[0].1) + enc_pairs(
            pairs.drop_first(),
        ));
        assert(enc_pairs(pairs.push(x)) =~= enc_pairs(pairs) + enc_bytes(x.0) + enc(x.1));
    }
}

/// Append the bytes of a slice to a vector.
pub(crate) fn push_slice(out: &mut Vec<u8>, s: &[u8])
    ensures
        final(out)@ == old(out)@ + s@,
{
    let mut i: usize = 0;
    while i < s.len()
        invariant
            0 <= i <= s@.len(),
            out@ == old(out)@ + s@.take(i as int),
        decreases s@.len() - i,
    {
        out.push(*vstd::slice::slice_index_get(s, i));
        proof {
            assert(s@.take(i + 1) =~= s@.take(i as int).push(s@[i as int]));
        }
        i = i + 1;
    }
    proof {
        assert(s@.take(s@.len() as int) =~= s@);
    }
}

/// Append the decimal digits of `n`, most significant first.
pub(crate) fn push_dec_digits(out: &mut Vec<u8>, n: u64)
    ensures
        final(out)@ == old(out)@ + dec_digits(n as nat),
    decreases n,
{
    if n < 10 {
        out.push(48 + n as u8);
    } else {
        push_dec_digits(out, n / 10);
        out.push(48 + (n % 10) as u8);
    }
}

/// Serialises a [`Value`] tree into canonical bencode bytes, appended to
/// an internal buffer.
#[derive(Debug, Default)]
pub struct BencodeEncoder {
    /// The bytes written so far.
    pub data: Vec<u8>,
}

impl BencodeEncoder {
    /// An encoder with an empty buffer.
    pub fn new() -> (r: Self)
        ensures
            r.data@ == Seq::<u8>::empty(),
    {
        BencodeEncoder { data: Vec::new() }
    }

    /// Give up the encoder and keep the bytes written so far.
    pub fn into_bytes(self) -> (r: Vec<u8>)
        ensures
            r == self.data,
    {
        self.data
    }

    /// Append the canonical encoding of one value.
    pub fn encode(&mut self, value: &Value)
        ensures
            final(self).data@ == old(self).data@ + enc(value@),
        decreases *value, 0int,
    {
        match value {
            Value::Int(i) => self.encode_int(*i),
            Value::String(s) => self.encode_bytes(s.as_slice()),
            Value::List(list) => self.encode_list(list),
            Value::Dict(dict) => self.encode_dict(dict),
        }
    }

    /// Append `i<decimal>e`: the canonical encoding of an integer.
    pub fn encode_int(&mut self, value: BencodeInt)
        ensures
            final(self).data@ == old(self).data@ + enc(SpecValue::Int(value as int)),
    {
        self.data.push(105);
        let m: u64 = if value == i64::MIN {
            0x8000_0000_0000_0000u64
        } else if value < 0 {
            (-value) as u64
        } else {
            value as u64
        };
        if value < 0 {
            self.data.push(45);
        }
        push_dec_digits(&mut self.data, m);
        self.data.push(101);
        proof {
            assert(self.data@ =~= old(self).data@ + enc(SpecValue::Int(value as int)));
        }
    }

    /// Append `<len>:<bytes>`: the canonical encoding of a byte string.
    pub fn encode_bytes(&mut self, bytes: &[u8])
        ensures
            final(self).data@ == old(self).data@ + enc_bytes(bytes@),
    {
        push_dec_digits(&mut self.data, bytes.len() as u64);
        self.data.push(58);
        push_slice(&mut self.data, bytes);
        proof {
            assert(self.data@ =~= old(self).data@ + enc_bytes(bytes@));
        }
    }

    /// Append `l<items>e`: the canonical encoding of a list.
    pub fn encode_list(&mut self, list: &BencodeList)
        ensures
            final(self).data@ == old(self).data@ + enc(SpecValue::List(model_seq(list@))),
        decreases *list, 1int,
    {
        self.data.push(108);
        let mut i: usize = 0;
        while i < list.len()
            invariant
                0 <= i <= list@.len(),
                self.data@ == old(self).data@ + seq![108u8] + enc_seq(model_seq(list@.take(i as int))),
            decreases list@.len() - i,
        {
            proof {
                assert(decreases_to!(*list => list@[i as int]));
            }
            self.encode(&list[i]);
            proof {
                let pre = list@.take(i as int);
                let x = list@[i as int];
                assert(list@.take(i + 1) =~= pre.push(x));
                lemma_model_seq_snoc(pre, x);
                lemma_enc_seq_snoc(model_seq(pre), x@);
                assert(model_seq(pre).push(x@) =~= model_seq(pre) + seq![x@]);
                assert(enc_seq(model_seq(list@.take(i + 1))) == enc_seq(model_seq(pre)) + enc(x@));
                assert(self.data@ =~= old(self).data@ + seq![108u8] + enc_seq(
                    model_seq(list@.take(i + 1)),
                ));
            }
            i = i + 1;
        }
        self.data.push(101);
        proof {
            assert(list@.take(list@.len() as int) =~= list@);
            assert(self.data@ =~= old(self).data@ + enc(SpecValue::List(model_seq(list@))));
        }
    }

    /// Append `d<pairs>e`: the canonical encoding of a dictionary, its
    /// pairs in the stored order.
    pub fn encode_dict(&mut self, dict: &BencodeDict)
        ensures
            final(self).data@ == old(self).data@ + enc(SpecValue::Dict(model_pairs(dict@))),
        decreases *dict, 1int,
    {
        self.data.push(100);
        let mut i: usize = 0;
        while i < dict.len()
            invariant
                0 <= i <= dict@.len(),
                self.data@ == old(self).data@ + seq![100u8] + enc_pairs(
                    model_pairs(dict@.take(i as int)),
                ),
            decreases dict@.len() - i,
        {
            self.encode_bytes(dict[i].0.as_slice());
            proof {
                assert(decreases_to!(*dict => dict@[i as int]));
            }
            self.encode(&dict[i].1);
            proof {
                let pre = dict@.take(i as int);
                let x = dict@[i as int];
                assert(dict@.take(i + 1) =~= pre.push(x));
                lemma_model_pairs_snoc(pre, x);
                lemma_enc_pairs_snoc(model_pairs(pre), (x.0@, x.1@));
                assert(model_pairs(pre).push((x.0@, x.1@)) =~= model_pairs(pre) + seq![
                    (x.0@, x.1@),
                ]);
                assert(enc_pairs(model_pairs(dict@.take(i + 1))) == enc_pairs(model_pairs(pre))
                    + enc_bytes(x.0@) + enc(x.1@));
                assert(self.data@ =~= old(self).data@ + seq![100u8] + enc_pairs(
                    model_pairs(dict@.take(i + 1)),
                ));
            }
            i = i + 1;
        }
        self.data.push(101);
        proof {
            assert(dict@.take(dict@.len() as int) =~= dict@);
            assert(self.data@ =~= old(self).data@ + enc(SpecValue::Dict(model_pairs(dict@))));
        }
    }
}

/// The canonical bencode bytes of a value tree.
pub fn into_vec(value: &Value) -> (r: Vec<u8>)
    ensures
        r@ == enc(value@),
{
    let mut encoder = BencodeEncoder::new();
    encoder.encode(value);
    encoder.into_bytes()
}

/// A failure of the bencode decoder.
#[derive(Debug, Clone, PartialEq, Eq)]
pub enum BencodeError {
    /// The byte that no value can start with.
    InvalidFormat(u8),
    UnexpectedEOF,
    InvalidInteger,
    InvalidString,
    InvalidList,
    InvalidDictionary,
    /// A value of the first variant stood where the second was required.
    InvalidType(&'static str, &'static str),
}

/// One byte of a slice.
pub(crate) fn get_byte(s: &[u8], i: usize) -> (r: u8)
    requires
        i < s@.len(),
    ensures
        r == s@[i as int],
{
    *vstd::slice::slice_index_get(s, i)
}

/// A longer run of the same digits denotes a number at least as large.
proof fn lemma_digits_val_grow(s: Seq<u8>, from: int, j: int, to: int)
    requires
        0 <= from <= j <= to <= s.len(),
        forall|k: int| from <= k < to ==> is_digit(#[trigger] s[k]),
    ensures
        digits_val(s.subrange(from, j)) <= digits_val(s.subrange(from, to)),
    decreases to - j,
{
    if j < to {
        let a = s.subrange(from, j);
        let b = s.subrange(from, j + 1);
        assert(b.drop_last() =~= a);
        assert(b.last() == s[j]);
        assert(digits_val(b) == digits_val(a) * 10 + (s[j] - 48) as nat);
        lemma_digits_val_grow(s, from, j + 1, to);
    } else {
        assert(s.subrange(from, j) =~= s.subrange(from, to));
    }
}

/// The index where a digit run ends, and that the run is all digits.
pub(crate) fn find_digits_end(s: &[u8], from: usize) -> (r: usize)
    requires
        from <= s@.len(),
    ensures
        from <= r <= s@.len(),
        r == span_digits(s@, from as int),
        forall|k: int| from <= k < r ==> is_digit(#[trigger] s@[k]),
{
    let mut j: usize = from;
    loop
        invariant
            from <= j <= s@.len(),
            span_digits(s@, from as int) == span_digits(s@, j as int),
            forall|k: int| from <= k < j ==> is_digit(#[trigger] s@[k]),
        decreases s@.len() - j,
    {
        if j >= s.len() {
            return j;
        }
        let b = get_byte(s, j);
        if !(48 <= b && b <= 57) {
            return j;
        }
        j = j + 1;
    }
}

/// The value of a run of decimal digits, or nothing when it exceeds the
/// range of `u64`.
pub(crate) fn read_digits(s: &[u8], from: usize, to: usize) -> (r: Option<u64>)
    requires
        from <= to <= s@.len(),
        forall|k: int| from <= k < to ==> is_digit(#[trigger] s@[k]),
    ensures
        match r {
            Some(a) => a as nat == digits_val(s@.subrange(from as int, to as int)),
            None => digits_val(s@.subrange(from as int, to as int)) > u64::MAX,
        },
{
    let mut acc: u64 = 0;
    let mut j: usize = from;
    while j < to
        invariant
            from <= j <= to <= s@.len(),
            forall|k: int| from <= k < to ==> is_digit(#[trigger] s@[k]),
            acc as nat == digits_val(s@.subrange(from as int, j as int)),
        decreases to - j,
    {
        let d: u64 = (get_byte(s, j) - 48) as u64;
        proof {
            let a = s@.subrange(from as int, j as int);
            let b = s@.subrange(from as int, j + 1);
            assert(b.drop_last() =~= a);
            assert(b.last() == s@[j as int]);
            assert(digits_val(b) == digits_val(a) * 10 + (s@[j as int] - 48) as nat);
            vstd::arithmetic::div_mod::lemma_fundamental_div_mod(
                0xffff_ffff_ffff_ffff - d as int,
                10,
            );
        }
        if acc > (0xffff_ffff_ffff_ffffu64 - d) / 10 {
            proof {
                lemma_digits_val_grow(s@, from as int, j + 1, to as int);
            }
            return None;
        }
        acc = acc * 10 + d;
        j = j + 1;
    }
    Some(acc)
}

/// The lexicographic order is unchanged by dropping a common prefix.
proof fn lemma_lex_lt_common_prefix(a: Seq<u8>, b: Seq<u8>, i: int)
    requires
        0 <= i <= a.len(),
        i <= b.len(),
        forall|k: int| 0 <= k < i ==> a[k] == b[k],
    ensures
        lex_lt(a, b) == lex_lt(a.skip(i), b.skip(i)),
    decreases i,
{
    if i > 0 {
        assert(a.len() > 0 && b.len() > 0);
        assert(a[0] == b[0]);
        assert(a.drop_first() =~= a.skip(1));
        assert(b.drop_first() =~= b.skip(1));
        lemma_lex_lt_common_prefix(a.skip(1), b.skip(1), i - 1);
        assert(a.skip(1).skip(i - 1) =~= a.skip(i));
        assert(b.skip(1).skip(i - 1) =~= b.skip(i));
    } else {
        assert(a.skip(0) =~= a);
        assert(b.skip(0) =~= b);
    }
}

/// Whether `a` lies strictly before `b` in byte-wise lexicographic order.
pub fn lex_less(a: &[u8], b: &[u8]) -> (r: bool)
    ensures
        r == lex_lt(a@, b@),
{
    let mut i: usize = 0;
    loop
        invariant
            0 <= i <= a@.len(),
            i <= b@.len(),
            forall|k: int| 0 <= k < i ==> a@[k] == b@[k],
        decreases a@.len() - i,
    {
        proof {
            lemma_lex_lt_common_prefix(a@, b@, i as int);
        }
        if i >= b.len() {
            return false;
        }
        if i >= a.len() {
            return true;
        }
        let x = get_byte(a, i);
        let y = get_byte(b, i);
        if x < y {
            return true;
        }
        if x > y {
            return false;
        }
        i = i + 1;
    }
}

/// A recursive-descent decoder over a byte slice.  Each parsing method
/// consumes the bytes of the value it returns from the front of `data`.
pub struct BencodeDecoder<'a> {
    /// The bytes not consumed yet.
    pub data: &'a [u8],
}

impl<'a> BencodeDecoder<'a> {
    /// A decoder over the whole of `data`.
    pub fn new(data: &'a [u8]) -> (r: Self)
        ensures
            r.data@ == data@,
    {
        BencodeDecoder { data }
    }

    /// Decode a byte string `<len>:<bytes>` from the front of the input,
    /// exactly as [`spec_parse_bytes`] describes.
    pub fn parse_str(&mut self) -> (r: Result<BencodeString, BencodeError>)
        ensures
            match spec_parse_bytes(old(self).data@) {
                Ok((payload, n)) => r matches Ok(s) && s@ == payload && 2 <= n
                    <= old(self).data@.len() && final(self).data@ == old(self).data@.skip(n),
                Err(e) => r matches Err(e2) && e2 == e,
            },
    {
        let ghost d = self.data@;
        let de = find_digits_end(self.data, 0);
        if de == 0 {
            return Err(BencodeError::InvalidString);
        }
        if de >= self.data.len() {
            return Err(BencodeError::UnexpectedEOF);
        }
        if get_byte(self.data, de) != 58 {
            return Err(BencodeError::InvalidString);
        }
        if de > 1 && get_byte(self.data, 0) == 48 {
            return Err(BencodeError::InvalidString);
        }
        proof {
            assert(d.take(de as int) =~= d.subrange(0, de as int));
        }
        match read_digits(self.data, 0, de) {
            None => {
                // The announced length exceeds `u64`, so the payload
                // cannot be present in full.
                Err(BencodeError::UnexpectedEOF)
            },
            Some(len64) => {
                if len64 > (self.data.len() - de - 1) as u64 {
                    return Err(BencodeError::UnexpectedEOF);
                }
                let len: usize = len64 as usize;
                let start: usize = de + 1;
                let payload = vstd::slice::slice_to_vec(
                    vstd::slice::slice_subrange(self.data, start, start + len),
                );
                self.data = vstd::slice::slice_subrange(self.data, start + len, self.data.len());
                proof {
                    assert(self.data@ =~= d.skip(start + len));
                }
                Ok(payload)
            },
        }
    }

    /// Decode an integer `i<decimal>e` from the front of the input,
    /// exactly as [`spec_parse_int`] describes.
    pub fn parse_int(&mut self) -> (r: Result<BencodeInt, BencodeError>)
        ensures
            match spec_parse_int(old(self).data@) {
                Ok((sv, n)) => r matches Ok(v) && sv == SpecValue::Int(v as int) && 3 <= n
                    <= old(self).data@.len() && final(self).data@ == old(self).data@.skip(n),
                Err(e) => r matches Err(e2) && e2 == e,
            },
    {
        let ghost d = self.data@;
        if self.data.len() == 0 {
            return Err(BencodeError::UnexpectedEOF);
        }
        if get_byte(self.data, 0) != 105 {
            return Err(BencodeError::InvalidInteger);
        }
        let neg = self.data.len() > 1 && get_byte(self.data, 1) == 45;
        let ds: usize = if neg {
            2
        } else {
            1
        };
        let de = find_digits_end(self.data, ds);
        if de >= self.data.len() {
            return Err(BencodeError::UnexpectedEOF);
        }
        if get_byte(self.data, de) != 101 {
            return Err(BencodeError::InvalidInteger);
        }
        if de == ds {
            return Err(BencodeError::InvalidInteger);
        }
        if de > ds + 1 && get_byte(self.data, ds) == 48 {
            return Err(BencodeError::InvalidInteger);
        }
        match read_digits(self.data, ds, de) {
            None => {
                // The magnitude exceeds `u64`, so it exceeds `i64` too.
                Err(BencodeError::InvalidInteger)
            },
            Some(m) => {
                if neg && m == 0 {
                    return Err(BencodeError::InvalidInteger);
                }
                if !neg && m > 0x7fff_ffff_ffff_ffffu64 {
                    return Err(BencodeError::InvalidInteger);
                }
                if neg && m > 0x8000_0000_0000_0000u64 {
                    return Err(BencodeError::InvalidInteger);
                }
                let val: i64 = if neg {
                    if m == 0x8000_0000_0000_0000u64 {
                        i64::MIN
                    } else {
                        -(m as i64)
                    }
                } else {
                    m as i64
                };
                self.data = vstd::slice::slice_subrange(self.data, de + 1, self.data.len());
                proof {
                    assert(self.data@ =~= d.skip(de + 1));
                }
                Ok(val)
            },
        }
    }

    /// Decode one value from the front of the input, exactly as
    /// [`spec_parse`] describes.
    pub fn parse(&mut self) -> (r: Result<Value, BencodeError>)
        ensures
            match spec_parse(old(self).data@) {
                Ok((sv, n)) => r matches Ok(v) && v@ == sv && 1 <= n <= old(self).data@.len()
                    && final(self).data@ == old(self).data@.skip(n),
                Err(e) => r matches Err(e2) && e2 == e,
            },
        decreases self.data@.len(), 1int,
    {
        if self.data.len() == 0 {
            return Err(BencodeError::UnexpectedEOF);
        }
        let b = get_byte(self.data, 0);
        if b == 105 {
            match self.parse_int() {
                Ok(v) => Ok(Value::Int(v)),
                Err(e) => Err(e),
            }
        } else if b == 108 {
            match self.parse_list() {
                Ok(l) => Ok(Value::List(l)),
                Err(e) => Err(e),
            }
        } else if b == 100 {
            match self.parse_dict() {
                Ok(d) => Ok(Value::Dict(d)),
                Err(e) => Err(e),
            }
        } else if 48 <= b && b <= 57 {
            match self.parse_str() {
                Ok(s) => Ok(Value::String(s)),
                Err(e) => Err(e),
            }
        } else {
            Err(BencodeError::InvalidFormat(b))
        }
    }

    /// Decode a list `l<items>e` from the front of the input, exactly as
    /// [`spec_parse_list`] describes.
    pub fn parse_list(&mut self) -> (r: Result<BencodeList, BencodeError>)
        ensures
            match spec_parse_list(old(self).data@) {
                Ok((sv, n)) => r matches Ok(l) && sv == SpecValue::List(model_seq(l@)) && 2 <= n
                    <= old(self).data@.len() && final(self).data@ == old(self).data@.skip(n),
                Err(e) => r matches Err(e2) && e2 == e,
            },
        decreases self.data@.len(), 0int,
    {
        if self.data.len() == 0 {
            return Err(BencodeError::InvalidList);
        }
        if get_byte(self.data, 0) != 108 {
            return Err(BencodeError::InvalidList);
        }
        self.data = vstd::slice::slice_subrange(self.data, 1, self.data.len());
        let ghost d0 = self.data@;
        proof {
            assert(d0 =~= old(self).data@.skip(1));
        }
        let mut acc: BencodeList = Vec::new();
        let ghost mut c: int = 0;
        loop
            invariant
                0 <= c <= d0.len(),
                self.data@ == d0.skip(c),
                self.data@.len() == d0.len() - c,
                d0 == old(self).data@.skip(1),
                old(self).data@.len() >= 1,
                old(self).data@[0] == 108,
                match spec_parse_items(self.data@) {
                    Ok((items, m)) => spec_parse_items(d0) == Ok::<_, BencodeError>(
                        (model_seq(acc@) + items, c + m),
                    ),
                    Err(e) => spec_parse_items(d0) == Err::<(Seq<SpecValue>, int), BencodeError>(e),
                },
            decreases self.data@.len(),
        {
            if self.data.len() == 0 {
                return Err(BencodeError::InvalidList);
            }
            if get_byte(self.data, 0) == 101 {
                proof {
                    assert(model_seq(acc@) + Seq::<SpecValue>::empty() =~= model_seq(acc@));
                    assert(old(self).data@.skip(1).skip(c + 1) =~= old(self).data@.skip(1 + c + 1));
                }
                self.data = vstd::slice::slice_subrange(self.data, 1, self.data.len());
                return Ok(acc);
            }
            let ghost cur = self.data@;
            match self.parse() {
                Err(e) => {
                    return Err(e);
                },
                Ok(v) => {
                    let ghost acc_old = acc@;
                    let ghost n = spec_parse(cur)->Ok_0.1;
                    let ghost vm = v@;
                    proof {
                        lemma_model_seq_snoc(acc_old, v);
                    }
                    acc.push(v);
                    proof {
                        assert(acc@ == acc_old.push(v));
                        assert(model_seq(acc@) == model_seq(acc_old) + seq![vm]);
                        assert(cur.len() > 0 && cur[0] != 101);
                        assert(spec_parse(cur) == Ok::<(SpecValue, int), BencodeError>((vm, n)));
                        if spec_parse_items(cur.skip(n)) is Ok {
                            let (items2, m2) = spec_parse_items(cur.skip(n))->Ok_0;
                            assert(spec_parse_items(cur) == Ok::<
                                (Seq<SpecValue>, int),
                                BencodeError,
                            >((seq![vm] + items2, n + m2)));
                            assert(model_seq(acc_old) + (seq![vm] + items2) =~= model_seq(acc@)
                                + items2);
                        } else {
                            let e = spec_parse_items(cur.skip(n))->Err_0;
                            assert(spec_parse_items(cur) == Err::<
                                (Seq<SpecValue>, int),
                                BencodeError,
                            >(e));
                        }
                        c = c + n;
                    }
                },
            }
        }
    }

    /// Decode a dictionary `d<pairs>e` from the front of the input,
    /// exactly as [`spec_parse_dict`] describes.
    pub fn parse_dict(&mut self) -> (r: Result<BencodeDict, BencodeError>)
        ensures
            match spec_parse_dict(old(self).data@) {
                Ok((sv, n)) => r matches Ok(d) && sv == SpecValue::Dict(model_pairs(d@)) && 2 <= n
                    <= old(self).data@.len() && final(self).data@ == old(self).data@.skip(n),
                Err(e) => r matches Err(e2) && e2 == e,
            },
        decreases self.data@.len(), 0int,
    {
        if self.data.len() == 0 {
            return Err(BencodeError::InvalidDictionary);
        }
        if get_byte(self.data, 0) != 100 {
            return Err(BencodeError::InvalidDictionary);
        }
        self.data = vstd::slice::slice_subrange(self.data, 1, self.data.len());
        let ghost d0 = self.data@;
        proof {
            assert(d0 =~= old(self).data@.skip(1));
        }
        let mut acc: BencodeDict = Vec::new();
        let ghost mut c: int = 0;
        loop
            invariant
                0 <= c <= d0.len(),
                self.data@ == d0.skip(c),
                self.data@.len() == d0.len() - c,
                d0 == old(self).data@.skip(1),
                old(self).data@.len() >= 1,
                old(self).data@[0] == 100,
                match spec_parse_pairs(self.data@, prev_key(acc@)) {
                    Ok((pairs, m)) => spec_parse_pairs(d0, None) == Ok::<_, BencodeError>(
                        (model_pairs(acc@) + pairs, c + m),
                    ),
                    Err(e) => spec_parse_pairs(d0, None) == Err::<
                        (Seq<(Seq<u8>, SpecValue)>, int),
                        BencodeError,
                    >(e),
                },
            decreases self.data@.len(),
        {
            if self.data.len() == 0 {
                return Err(BencodeError::InvalidDictionary);
            }
            let b = get_byte(self.data, 0);
            if b == 101 {
                proof {
                    assert(model_pairs(acc@) + Seq::<(Seq<u8>, SpecValue)>::empty() =~= model_pairs(
                        acc@,
                    ));
                    assert(old(self).data@.skip(1).skip(c + 1) =~= old(self).data@.skip(1 + c + 1));
                }
                self.data = vstd::slice::slice_subrange(self.data, 1, self.data.len());
                return Ok(acc);
            }
            if !(48 <= b && b <= 57) {
                return Err(BencodeError::InvalidDictionary);
            }
            let ghost cur = self.data@;
            let k = match self.parse_str() {
                Err(e) => {
                    return Err(e);
                },
                Ok(k) => k,
            };
            let ghost n = spec_parse_bytes(cur)->Ok_0.1;
            if acc.len() > 0 {
                let p = &acc[acc.len() - 1].0;
                if !lex_less(p.as_slice(), k.as_slice()) {
                    return Err(BencodeError::InvalidDictionary);
                }
            }
            let ghost mid = self.data@;
            let v = match self.parse() {
                Err(e) => {
                    return Err(e);
                },
                Ok(v) => v,
            };
            let ghost m = spec_parse(mid)->Ok_0.1;
            let ghost acc_old = acc@;
            let ghost km = k@;
            let ghost vm = v@;
            proof {
                lemma_model_pairs_snoc(acc_old, (k, v));
                assert(cur.skip(n).skip(m) =~= cur.skip(n + m));
            }
            acc.push((k, v));
            proof {
                assert(model_pairs(acc@) == model_pairs(acc_old) + seq![(km, vm)]);
                assert(cur.len() > 0 && cur[0] != 101 && is_digit(cur[0]));
                assert(spec_parse_bytes(cur) == Ok::<(Seq<u8>, int), BencodeError>((km, n)));
                assert(spec_parse(cur.skip(n)) == Ok::<(SpecValue, int), BencodeError>((vm, m)));
                assert(prev_key(acc_old) matches Some(p) ==> lex_lt(p, km));
                if spec_parse_pairs(cur.skip(n + m), Some(km)) is Ok {
                    let (pairs2, t2) = spec_parse_pairs(cur.skip(n + m), Some(km))->Ok_0;
                    assert(spec_parse_pairs(cur, prev_key(acc_old)) == Ok::<
                        (Seq<(Seq<u8>, SpecValue)>, int),
                        BencodeError,
                    >((seq![(km, vm)] + pairs2, n + m + t2)));
                    assert(model_pairs(acc_old) + (seq![(km, vm)] + pairs2) =~= model_pairs(acc@)
                        + pairs2);
                } else {
                    let e = spec_parse_pairs(cur.skip(n + m), Some(km))->Err_0;
                    assert(spec_parse_pairs(cur, prev_key(acc_old)) == Err::<
                        (Seq<(Seq<u8>, SpecValue)>, int),
                        BencodeError,
                    >(e));
                }
                assert(prev_key(acc@) == Some(km));
                c = c + n + m;
            }
        }
    }
}

/// The key that the next pair of a dictionary must exceed: the last key
/// decoded so far, if any.
pub open spec fn prev_key(pairs: Seq<(Vec<u8>, Value)>) -> Option<Seq<u8>> {
    if pairs.len() == 0 {
        None
    } else {
        Some(pairs.last().0@)
    }
}

/// Decode one bencode value from the front of `data`, exactly as
/// [`spec_parse`] describes.  Bytes after the first complete value are
/// ignored.
pub fn from_slice(data: &[u8]) -> (r: Result<Value, BencodeError>)
    ensures
        match spec_parse(data@) {
            Ok((sv, n)) => r matches Ok(v) && v@ == sv,
            Err(e) => r matches Err(e2) && e2 == e,
        },
{
    let mut parser = BencodeDecoder::new(data);
    parser.parse()
}

} // verus!
