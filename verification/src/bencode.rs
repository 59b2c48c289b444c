//! Bencode: the self-delimiting binary serialization format used by the
//! metadata file and the tracker protocol. Byte strings are written as
//! `<len>:<bytes>`, integers as `i<digits>e`, lists as `l<items>e` and
//! dictionaries as `d<key value pairs>e`. Dictionary entries keep the
//! order in which they were encountered, so re-encoding a decoded value
//! reproduces the input bytes exactly.

use vstd::prelude::*;

verus! {

/// A decoded bencode value.
#[derive(Debug, PartialEq, Eq)]
pub enum Value {
    ByteString(Vec<u8>),
    Integer(i64),
    List(Vec<Value>),
    Dictionary(Vec<(Vec<u8>, Value)>),
}

/// The mathematical model of a bencode value.
pub enum SpecValue {
    ByteString(Seq<u8>),
    Integer(i64),
    List(Seq<SpecValue>),
    Dictionary(Seq<(Seq<u8>, SpecValue)>),
}

/// Why a byte sequence failed to decode.
#[derive(Debug, PartialEq, Eq, Structural, Clone, Copy)]
pub enum DecodeError {
    /// The input was empty where a value was expected.
    EmptyInput,
    /// A terminating delimiter (`:` or `e`) was never found.
    MissingDelimiter,
    /// A length prefix or integer body did not parse as a number.
    InvalidNumber,
    /// A byte-string length exceeds the bytes that remain.
    InvalidLength,
    /// A dictionary key decoded to something other than a byte string.
    InvalidKey,
}

impl Value {
    /// The model of this value, with byte vectors abstracted to sequences.
    pub open spec fn model(self) -> SpecValue
        decreases self,
    {
        match self {
            Value::ByteString(b) => SpecValue::ByteString(b@),
            Value::Integer(i) => SpecValue::Integer(i),
            Value::List(vs) => SpecValue::List(models_of(vs@)),
            Value::Dictionary(ps) => SpecValue::Dictionary(pair_models_of(ps@)),
        }
    }
}

/// The models of a sequence of values, elementwise.
pub open spec fn models_of(s: Seq<Value>) -> Seq<SpecValue>
    decreases s,
{
    if s.len() == 0 {
        Seq::empty()
    } else {
        seq![s.first().model()] + models_of(s.drop_first())
    }
}

/// The models of a sequence of key/value pairs, elementwise.
pub open spec fn pair_models_of(s: Seq<(Vec<u8>, Value)>) -> Seq<(Seq<u8>, SpecValue)>
    decreases s,
{
    if s.len() == 0 {
        Seq::empty()
    } else {
        seq![(s.first().0@, s.first().1.model())] + pair_models_of(s.drop_first())
    }
}

/// The decimal digits of `n` without a leading zero; empty for `n <= 0`.
pub open spec fn dec_digits_rec(n: int) -> Seq<u8>
    decreases n,
{
    if n <= 0 {
        Seq::empty()
    } else {
        dec_digits_rec(n / 10) + seq![(48 + (n % 10)) as u8]
    }
}

/// The canonical decimal rendering of `n >= 0`: `"0"` for zero, otherwise
/// the digits of `n` with no leading zero.
pub open spec fn dec_digits(n: int) -> Seq<u8> {
    if n == 0 {
        seq![48u8]
    } else {
        dec_digits_rec(n)
    }
}

/// The canonical rendering of a signed integer: a `-` sign for negative
/// values, then the decimal digits of the magnitude.
pub open spec fn int_digits(n: int) -> Seq<u8> {
    if n < 0 {
        seq![45u8] + dec_digits(-n)
    } else {
        dec_digits(n)
    }
}

pub open spec fn is_digit(b: u8) -> bool {
    48 <= b <= 57
}

pub open spec fn all_digits(s: Seq<u8>) -> bool {
    forall|i: int| 0 <= i < s.len() ==> is_digit(#[trigger] s[i])
}

/// The number denoted by a sequence of decimal digits.
pub open spec fn digits_val(s: Seq<u8>) -> int
    decreases s.len(),
{
    if s.len() == 0 {
        0
    } else {
        digits_val(s.drop_last()) * 10 + (s.last() - 48)
    }
}

/// The encoding of a byte string: its length in decimal, a colon, the bytes.
pub open spec fn spec_encode_bytes(b: Seq<u8>) -> Seq<u8> {
    dec_digits(b.len() as int) + seq![58u8] + b
}

/// The canonical encoding of a bencode value.
pub open spec fn spec_encode(v: SpecValue) -> Seq<u8>
    decreases v,
{
    match v {
        SpecValue::ByteString(b) => spec_encode_bytes(b),
        SpecValue::Integer(i) => seq![105u8] + int_digits(i as int) + seq![101u8],
        SpecValue::List(vs) => seq![108u8] + spec_encode_list(vs) + seq![101u8],
        SpecValue::Dictionary(ps) => seq![100u8] + spec_encode_dict(ps) + seq![101u8],
    }
}

/// The concatenated encodings of a sequence of values.
pub open spec fn spec_encode_list(vs: Seq<SpecValue>) -> Seq<u8>
    decreases vs,
{
    if vs.len() == 0 {
        Seq::empty()
    } else {
        spec_encode(vs.first()) + spec_encode_list(vs.drop_first())
    }
}

/// The concatenated encodings of a sequence of key/value pairs.
pub open spec fn spec_encode_dict(ps: Seq<(Seq<u8>, SpecValue)>) -> Seq<u8>
    decreases ps,
{
    if ps.len() == 0 {
        Seq::empty()
    } else {
        spec_encode_bytes(ps.first().0) + spec_encode(ps.first().1)
            + spec_encode_dict(ps.drop_first())
    }
}

/// The index of the first occurrence of `x` in `s`, if any.
pub open spec fn spec_find(s: Seq<u8>, x: u8) -> Option<int>
    decreases s.len(),
{
    if s.len() == 0 {
        None
    } else if s.first() == x {
        Some(0)
    } else {
        match spec_find(s.drop_first(), x) {
            None => None,
            Some(i) => Some(i + 1),
        }
    }
}

/// The signed integer denoted by `s`: an optional `-` sign followed by at
/// least one decimal digit, with the value in range for `i64`.
pub open spec fn spec_parse_i64(s: Seq<u8>) -> Option<i64> {
    if s.len() >= 1 && s[0] == 45 {
        let d = s.drop_first();
        if d.len() >= 1 && all_digits(d) && -digits_val(d) >= i64::MIN {
            Some((-digits_val(d)) as i64)
        } else {
            None
        }
    } else {
        if s.len() >= 1 && all_digits(s) && digits_val(s) <= i64::MAX {
            Some(digits_val(s) as i64)
        } else {
            None
        }
    }
}

/// Decoding a byte string `<len>:<bytes>` from the front of `b`.
pub open spec fn spec_decode_bytes(b: Seq<u8>) -> Result<(SpecValue, int), DecodeError> {
    match spec_find(b, 58) {
        None => Err(DecodeError::MissingDelimiter),
        Some(k) => {
            let prefix = b.take(k);
            if !(k >= 1 && all_digits(prefix)) {
                Err(DecodeError::InvalidNumber)
            } else {
                let len = digits_val(prefix);
                if b.len() - k - 1 < len {
                    Err(DecodeError::InvalidLength)
                } else {
                    Ok((SpecValue::ByteString(b.subrange(k + 1, k + 1 + len)), k + 1 + len))
                }
            }
        },
    }
}

/// Decoding an integer `i<digits>e` from the front of `b` (`b[0] == 'i'`).
pub open spec fn spec_decode_int(b: Seq<u8>) -> Result<(SpecValue, int), DecodeError> {
    match spec_find(b.drop_first(), 101) {
        None => Err(DecodeError::MissingDelimiter),
        Some(k) => match spec_parse_i64(b.subrange(1, 1 + k)) {
            None => Err(DecodeError::InvalidNumber),
            Some(i) => Ok((SpecValue::Integer(i), k + 2)),
        },
    }
}

/// Decoding one value from the front of `b`: on success, the value and the
/// number of bytes it occupied.
pub open spec fn spec_decode(b: Seq<u8>) -> Result<(SpecValue, int), DecodeError>
    decreases b.len(), 0int,
{
    if b.len() == 0 {
        Err(DecodeError::EmptyInput)
    } else if b.first() == 105 {
        spec_decode_int(b)
    } else if b.first() == 108 {
        match spec_decode_list(b.drop_first()) {
            Err(e) => Err(e),
            Ok((vs, n)) => Ok((SpecValue::List(vs), 1 + n)),
        }
    } else if b.first() == 100 {
        match spec_decode_dict(b.drop_first()) {
            Err(e) => Err(e),
            Ok((ps, n)) => Ok((SpecValue::Dictionary(ps), 1 + n)),
        }
    } else {
        spec_decode_bytes(b)
    }
}

/// Decoding list items until a terminating `e`; the count includes the `e`.
pub open spec fn spec_decode_list(b: Seq<u8>) -> Result<(Seq<SpecValue>, int), DecodeError>
    decreases b.len(), 1int,
{
    if b.len() == 0 {
        Err(DecodeError::MissingDelimiter)
    } else if b.first() == 101 {
        Ok((Seq::empty(), 1))
    } else {
        match spec_decode(b) {
            Err(e) => Err(e),
            Ok((v, n)) => {
                if 1 <= n <= b.len() {
                    match spec_decode_list(b.skip(n)) {
                        Err(e) => Err(e),
                        Ok((vs, m)) => Ok((seq![v] + vs, n + m)),
                    }
                } else {
                    Err(DecodeError::MissingDelimiter)
                }
            },
        }
    }
}

/// Decoding dictionary entries until a terminating `e`; each entry is a
/// byte-string key followed by a value.
pub open spec fn spec_decode_dict(b: Seq<u8>) -> Result<
    (Seq<(Seq<u8>, SpecValue)>, int),
    DecodeError,
>
    decreases b.len(), 1int,
{
    if b.len() == 0 {
        Err(DecodeError::MissingDelimiter)
    } else if b.first() == 101 {
        Ok((Seq::empty(), 1))
    } else {
        match spec_decode(b) {
            Err(e) => Err(e),
            Ok((k, n)) => {
                if !(k is ByteString) {
                    Err(DecodeError::InvalidKey)
                } else if 1 <= n <= b.len() {
                    match spec_decode(b.skip(n)) {
                        Err(e) => Err(e),
                        Ok((v, m)) => {
                            if 1 <= m <= b.len() - n {
                                match spec_decode_dict(b.skip(n + m)) {
                                    Err(e) => Err(e),
                                    Ok((ps, l)) => Ok(
                                        (seq![(k->ByteString_0, v)] + ps, n + m + l),
                                    ),
                                }
                            } else {
                                Err(DecodeError::MissingDelimiter)
                            }
                        },
                    }
                } else {
                    Err(DecodeError::MissingDelimiter)
                }
            },
        }
    }
}

proof fn lemma_dec_digits_rec(n: int)
    requires
        n >= 0,
    ensures
        all_digits(dec_digits_rec(n)),
        digits_val(dec_digits_rec(n)) == n,
        n > 0 ==> dec_digits_rec(n).len() >= 1,
    decreases n,
{
    if n > 0 {
        lemma_dec_digits_rec(n / 10);
        let s = dec_digits_rec(n);
        let p = dec_digits_rec(n / 10);
        assert(s == p + seq![(48 + (n % 10)) as u8]);
        assert(s.drop_last() =~= p);
        assert(digits_val(s) == digits_val(p) * 10 + (n % 10));
        assert(n / 10 * 10 + n % 10 == n) by {
            vstd::arithmetic::div_mod::lemma_fundamental_div_mod(n, 10);
        }
        assert forall|i: int| 0 <= i < s.len() implies is_digit(#[trigger] s[i]) by {
            if i < p.len() {
                assert(s[i] == p[i]);
            } else {
                assert(s[i] == (48 + (n % 10)) as u8);
            }
        }
    }
}

/// The canonical decimal rendering of a non-negative number consists of
/// digits alone and denotes that number.
proof fn lemma_dec_digits(n: int)
    requires
        n >= 0,
    ensures
        all_digits(dec_digits(n)),
        digits_val(dec_digits(n)) == n,
        dec_digits(n).len() >= 1,
        is_digit(dec_digits(n)[0]),
{
    lemma_dec_digits_rec(n);
    if n == 0 {
        assert(dec_digits(0) == seq![48u8]);
        assert(digits_val(seq![48u8]) == digits_val(seq![48u8].drop_last()) * 10 + 0);
        assert(seq![48u8].drop_last() =~= Seq::<u8>::empty());
    }
}

proof fn lemma_digits_val_nonneg(s: Seq<u8>)
    requires
        all_digits(s),
    ensures
        digits_val(s) >= 0,
    decreases s.len(),
{
    if s.len() > 0 {
        assert(all_digits(s.drop_last())) by {
            assert(forall|i: int|
                0 <= i < s.len() - 1 ==> #[trigger] s.drop_last()[i] == s[i]);
        }
        lemma_digits_val_nonneg(s.drop_last());
    }
}

/// If `x` first occurs at position `i` of `s`, the find function says so.
proof fn lemma_find_some(s: Seq<u8>, x: u8, i: int)
    requires
        0 <= i < s.len(),
        s[i] == x,
        forall|j: int| 0 <= j < i ==> s[j] != x,
    ensures
        spec_find(s, x) == Some(i),
    decreases s.len(),
{
    if i > 0 {
        lemma_find_some(s.drop_first(), x, i - 1);
    }
}

proof fn lemma_find_none(s: Seq<u8>, x: u8)
    requires
        forall|j: int| 0 <= j < s.len() ==> s[j] != x,
    ensures
        spec_find(s, x) is None,
    decreases s.len(),
{
    if s.len() > 0 {
        lemma_find_none(s.drop_first(), x);
    }
}

/// The rendering of any `i64` parses back to the same value.
proof fn lemma_parse_int_digits(i: i64)
    ensures
        spec_parse_i64(int_digits(i as int)) == Some(i),
{
    if i < 0 {
        let d = dec_digits(-(i as int));
        lemma_dec_digits(-(i as int));
        let s = seq![45u8] + d;
        assert(s[0] == 45);
        assert(s.drop_first() =~= d);
        lemma_digits_val_nonneg(d);
        assert(-digits_val(d) == i as int);
    } else {
        let s = dec_digits(i as int);
        lemma_dec_digits(i as int);
        assert(s[0] != 45);
    }
}

/// Every encoding is at least two bytes long and never begins with `e`.
proof fn lemma_encode_shape(v: SpecValue)
    ensures
        spec_encode(v).len() >= 2,
        spec_encode(v)[0] != 101,
{
    match v {
        SpecValue::ByteString(s) => {
            lemma_dec_digits(s.len() as int);
            assert(spec_encode(v)[0] == dec_digits(s.len() as int)[0]);
        },
        SpecValue::Integer(i) => {
            if i < 0 {
                lemma_dec_digits(-(i as int));
            } else {
                lemma_dec_digits(i as int);
            }
            assert(spec_encode(v)[0] == 105);
        },
        SpecValue::List(vs) => {
            assert(spec_encode(v)[0] == 108);
        },
        SpecValue::Dictionary(ps) => {
            assert(spec_encode(v)[0] == 100);
        },
    }
}

/// Decoding an encoded byte string from the front of any longer input
/// yields the byte string back.
proof fn lemma_decode_bytes_encode(s: Seq<u8>, suffix: Seq<u8>)
    ensures
        spec_decode(spec_encode_bytes(s) + suffix) == Ok::<(SpecValue, int), DecodeError>(
            (SpecValue::ByteString(s), spec_encode_bytes(s).len() as int),
        ),
{
    let dd = dec_digits(s.len() as int);
    lemma_dec_digits(s.len() as int);
    let b = spec_encode_bytes(s) + suffix;
    let k = dd.len() as int;
    assert(b.len() >= 2);
    assert(b.first() != 105 && b.first() != 108 && b.first() != 100) by {
        assert(b[0] == dd[0]);
        assert(is_digit(dd[0]));
    }
    assert(b[k] == 58);
    assert(forall|j: int| 0 <= j < k ==> b[j] == dd[j]);
    assert(forall|j: int| 0 <= j < k ==> #[trigger] b[j] != 58) by {
        assert(forall|j: int| 0 <= j < k ==> is_digit(#[trigger] dd[j]));
    }
    lemma_find_some(b, 58, k);
    assert(b.take(k) =~= dd);
    assert(digits_val(b.take(k)) == s.len());
    assert(b.len() - k - 1 == s.len() + suffix.len());
    assert(b.subrange(k + 1, k + 1 + s.len() as int) =~= s);
}

/// Round trip, one direction: decoding an encoding (followed by anything)
/// yields the encoded value and consumes exactly the encoding.
pub proof fn lemma_decode_encode(v: SpecValue, suffix: Seq<u8>)
    ensures
        spec_decode(spec_encode(v) + suffix) == Ok::<(SpecValue, int), DecodeError>(
            (v, spec_encode(v).len() as int),
        ),
    decreases v, 0int,
{
    let b = spec_encode(v) + suffix;
    match v {
        SpecValue::ByteString(s) => {
            lemma_decode_bytes_encode(s, suffix);
        },
        SpecValue::Integer(i) => {
            let digs = int_digits(i as int);
            let has_digits: bool = if i < 0 {
                lemma_dec_digits(-(i as int));
                true
            } else {
                lemma_dec_digits(i as int);
                true
            };
            assert(b.first() == 105);
            let t = b.drop_first();
            assert(t =~= digs + seq![101u8] + suffix);
            let k = digs.len() as int;
            assert(t[k] == 101);
            assert(forall|j: int| 0 <= j < k ==> #[trigger] t[j] == digs[j]);
            assert(forall|j: int| 0 <= j < k ==> t[j] != 101) by {
                assert(forall|j: int|
                    0 <= j < k ==> is_digit(#[trigger] digs[j]) || digs[j] == 45);
            }
            lemma_find_some(t, 101, k);
            assert(b.subrange(1, 1 + k) =~= digs);
            lemma_parse_int_digits(i);
            assert(spec_decode_int(b) == Ok::<(SpecValue, int), DecodeError>(
                (SpecValue::Integer(i), k + 2),
            ));
        },
        SpecValue::List(vs) => {
            assert(b.first() == 108);
            assert(b.drop_first() =~= spec_encode_list(vs) + seq![101u8] + suffix);
            lemma_decode_encode_list(vs, suffix);
        },
        SpecValue::Dictionary(ps) => {
            assert(b.first() == 100);
            assert(b.drop_first() =~= spec_encode_dict(ps) + seq![101u8] + suffix);
            lemma_decode_encode_dict(ps, suffix);
        },
    }
}

proof fn lemma_decode_encode_list(vs: Seq<SpecValue>, suffix: Seq<u8>)
    ensures
        spec_decode_list(spec_encode_list(vs) + seq![101u8] + suffix) == Ok::<
            (Seq<SpecValue>, int),
            DecodeError,
        >((vs, spec_encode_list(vs).len() as int + 1)),
    decreases vs, 1int,
{
    let b = spec_encode_list(vs) + seq![101u8] + suffix;
    if vs.len() == 0 {
        assert(b.first() == 101);
        assert(vs =~= Seq::<SpecValue>::empty());
    } else {
        let v0 = vs.first();
        let e0 = spec_encode(v0);
        let rest = spec_encode_list(vs.drop_first()) + seq![101u8] + suffix;
        lemma_encode_shape(v0);
        assert(b =~= e0 + rest);
        assert(b.first() == e0[0]);
        assert(b.first() != 101);
        lemma_decode_encode(v0, rest);
        assert(spec_decode(b) == Ok::<(SpecValue, int), DecodeError>((v0, e0.len() as int)));
        let n = e0.len() as int;
        assert(1 <= n <= b.len());
        assert(b.skip(n) =~= rest);
        lemma_decode_encode_list(vs.drop_first(), suffix);
        assert(seq![v0] + vs.drop_first() =~= vs);
    }
}

proof fn lemma_decode_encode_dict(ps: Seq<(Seq<u8>, SpecValue)>, suffix: Seq<u8>)
    ensures
        spec_decode_dict(spec_encode_dict(ps) + seq![101u8] + suffix) == Ok::<
            (Seq<(Seq<u8>, SpecValue)>, int),
            DecodeError,
        >((ps, spec_encode_dict(ps).len() as int + 1)),
    decreases ps, 1int,
{
    let b = spec_encode_dict(ps) + seq![101u8] + suffix;
    if ps.len() == 0 {
        assert(b.first() == 101);
        assert(ps =~= Seq::<(Seq<u8>, SpecValue)>::empty());
    } else {
        let k0 = ps.first().0;
        let v0 = ps.first().1;
        let ek = spec_encode_bytes(k0);
        let ev = spec_encode(v0);
        let erest = spec_encode_dict(ps.drop_first());
        lemma_dec_digits(k0.len() as int);
        assert(b.len() >= 1 && b.first() != 101) by {
            assert(b[0] == ek[0]);
            assert(ek[0] == dec_digits(k0.len() as int)[0]);
            assert(is_digit(b[0]));
        }
        let tail1 = ev + erest + seq![101u8] + suffix;
        assert(b =~= ek + tail1);
        lemma_decode_bytes_encode(k0, tail1);
        assert(spec_decode(b) == Ok::<(SpecValue, int), DecodeError>(
            (SpecValue::ByteString(k0), ek.len() as int),
        ));
        let n = ek.len() as int;
        assert(1 <= n <= b.len());
        let tail2 = erest + seq![101u8] + suffix;
        assert(b.skip(n) =~= ev + tail2);
        lemma_decode_encode(v0, tail2);
        lemma_encode_shape(v0);
        let m = ev.len() as int;
        assert(spec_decode(b.skip(n)) == Ok::<(SpecValue, int), DecodeError>((v0, m)));
        assert(1 <= m <= b.len() - n);
        assert(b.skip(n + m) =~= tail2);
        lemma_decode_encode_dict(ps.drop_first(), suffix);
        assert(seq![(k0, v0)] + ps.drop_first() =~= ps);
    }
}

/// Law: a canonical encoding survives a decode/encode round trip. Every
/// byte sequence of the form `spec_encode(v)` decodes in full to `v`, and
/// re-encoding that value reproduces the input bytes exactly.
pub proof fn lemma_round_trip(b: Seq<u8>, v: SpecValue)
    requires
        b == spec_encode(v),
    ensures
        spec_decode(b) matches Ok(r) && r.0 == v && r.1 == b.len() && spec_encode(r.0) == b,
{
    lemma_decode_encode(v, Seq::empty());
    assert(spec_encode(v) + Seq::<u8>::empty() =~= b);
}

proof fn lemma_models_of_push(s: Seq<Value>, v: Value)
    ensures
        models_of(s.push(v)) == models_of(s).push(v.model()),
    decreases s,
{
    if s.len() == 0 {
        reveal_with_fuel(models_of, 2);
        assert(s.push(v).drop_first() =~= Seq::<Value>::empty());
        assert(models_of(s.push(v)) =~= seq![v.model()]);
        assert(models_of(s).push(v.model()) =~= seq![v.model()]);
    } else {
        assert(s.push(v).drop_first() =~= s.drop_first().push(v));
        lemma_models_of_push(s.drop_first(), v);
        assert(models_of(s.push(v)) =~= models_of(s).push(v.model()));
    }
}

proof fn lemma_pair_models_of_push(s: Seq<(Vec<u8>, Value)>, p: (Vec<u8>, Value))
    ensures
        pair_models_of(s.push(p)) == pair_models_of(s).push((p.0@, p.1.model())),
    decreases s,
{
    if s.len() == 0 {
        reveal_with_fuel(pair_models_of, 2);
        assert(s.push(p).drop_first() =~= Seq::<(Vec<u8>, Value)>::empty());
        assert(pair_models_of(s.push(p)) =~= seq![(p.0@, p.1.model())]);
        assert(pair_models_of(s).push((p.0@, p.1.model())) =~= seq![(p.0@, p.1.model())]);
    } else {
        assert(s.push(p).drop_first() =~= s.drop_first().push(p));
        lemma_pair_models_of_push(s.drop_first(), p);
        assert(pair_models_of(s.push(p)) =~= pair_models_of(s).push((p.0@, p.1.model())));
    }
}

proof fn lemma_encode_list_push(vs: Seq<SpecValue>, v: SpecValue)
    ensures
        spec_encode_list(vs.push(v)) == spec_encode_list(vs) + spec_encode(v),
    decreases vs,
{
    if vs.len() == 0 {
        reveal_with_fuel(spec_encode_list, 2);
        assert(vs.push(v).drop_first() =~= Seq::<SpecValue>::empty());
        assert(spec_encode_list(vs.push(v)) =~= spec_encode_list(vs) + spec_encode(v));
    } else {
        assert(vs.push(v).drop_first() =~= vs.drop_first().push(v));
        lemma_encode_list_push(vs.drop_first(), v);
        assert(spec_encode_list(vs.push(v)) =~= spec_encode_list(vs) + spec_encode(v));
    }
}

proof fn lemma_encode_dict_push(ps: Seq<(Seq<u8>, SpecValue)>, p: (Seq<u8>, SpecValue))
    ensures
        spec_encode_dict(ps.push(p)) == spec_encode_dict(ps) + spec_encode_bytes(p.0)
            + spec_encode(p.1),
    decreases ps,
{
    if ps.len() == 0 {
        reveal_with_fuel(spec_encode_dict, 2);
        assert(ps.push(p).drop_first() =~= Seq::<(Seq<u8>, SpecValue)>::empty());
        assert(spec_encode_dict(ps.push(p)) =~= spec_encode_dict(ps) + spec_encode_bytes(p.0)
            + spec_encode(p.1));
    } else {
        assert(ps.push(p).drop_first() =~= ps.drop_first().push(p));
        lemma_encode_dict_push(ps.drop_first(), p);
        assert(spec_encode_dict(ps.push(p)) =~= spec_encode_dict(ps) + spec_encode_bytes(p.0)
            + spec_encode(p.1));
    }
}

fn push_dec_rec(out: &mut Vec<u8>, n: u64)
    ensures
        final(out)@ == old(out)@ + dec_digits_rec(n as int),
    decreases n,
{
    if n > 0 {
        push_dec_rec(out, n / 10);
        out.push(48 + (n % 10) as u8);
        assert(out@ =~= old(out)@ + dec_digits_rec(n as int));
    } else {
        assert(out@ =~= old(out)@ + dec_digits_rec(0));
    }
}

fn push_decimal(out: &mut Vec<u8>, n: u64)
    ensures
        final(out)@ == old(out)@ + dec_digits(n as int),
{
    if n == 0 {
        out.push(48);
        assert(out@ =~= old(out)@ + dec_digits(0));
    } else {
        push_dec_rec(out, n);
    }
}

fn push_int(out: &mut Vec<u8>, i: i64)
    ensures
        final(out)@ == old(out)@ + int_digits(i as int),
{
    if i < 0 {
        out.push(45);
        let mag: u64 = if i == i64::MIN {
            9223372036854775808u64
        } else {
            (-i) as u64
        };
        assert(mag as int == -(i as int));
        push_decimal(out, mag);
        assert(out@ =~= old(out)@ + int_digits(i as int));
    } else {
        push_decimal(out, i as u64);
    }
}

fn push_byte_string(out: &mut Vec<u8>, b: &Vec<u8>)
    ensures
        final(out)@ == old(out)@ + spec_encode_bytes(b@),
{
    push_decimal(out, b.len() as u64);
    out.push(58);
    let mut j: usize = 0;
    while j < b.len()
        invariant
            j <= b@.len(),
            out@ == old(out)@ + dec_digits(b@.len() as int) + seq![58u8] + b@.take(j as int),
        decreases b@.len() - j,
    {
        out.push(b[j]);
        proof {
            assert(b@.take(j + 1 as int) =~= b@.take(j as int).push(b@[j as int]));
        }
        j += 1;
        assert(out@ =~= old(out)@ + dec_digits(b@.len() as int) + seq![58u8] + b@.take(j as int));
    }
    assert(b@.take(b@.len() as int) =~= b@);
    assert(out@ =~= old(out)@ + spec_encode_bytes(b@));
}

#[verifier::loop_isolation(false)]
fn encode_into(out: &mut Vec<u8>, v: &Value)
    ensures
        final(out)@ == old(out)@ + spec_encode(v.model()),
    decreases v,
{
    match v {
        Value::ByteString(b) => {
            push_byte_string(out, b);
        },
        Value::Integer(i) => {
            out.push(105);
            push_int(out, *i);
            out.push(101);
            assert(out@ =~= old(out)@ + spec_encode(v.model()));
        },
        Value::List(vs) => {
            out.push(108);
            let mut idx: usize = 0;
            while idx < vs.len()
                invariant
                    idx <= vs@.len(),
                    out@ == old(out)@ + seq![108u8] + spec_encode_list(
                        models_of(vs@.take(idx as int)),
                    ),
                decreases vs@.len() - idx,
            {
                proof {
                    assert(*vs == (*v)->List_0);
                    assert(decreases_to!(*v => (*v)->List_0));
                    assert(decreases_to!(*vs => vs@));
                    assert(decreases_to!(vs@ => vs@[idx as int]));
                }
                encode_into(out, &vs[idx]);
                proof {
                    assert(vs@.take(idx + 1 as int) =~= vs@.take(idx as int).push(vs@[idx as int]));
                    lemma_models_of_push(vs@.take(idx as int), vs@[idx as int]);
                    lemma_encode_list_push(
                        models_of(vs@.take(idx as int)),
                        vs@[idx as int].model(),
                    );
                }
                idx += 1;
                assert(out@ =~= old(out)@ + seq![108u8] + spec_encode_list(
                    models_of(vs@.take(idx as int)),
                ));
            }
            out.push(101);
            proof {
                assert(vs@.take(vs@.len() as int) =~= vs@);
                assert(out@ =~= old(out)@ + spec_encode(v.model()));
            }
        },
        Value::Dictionary(ps) => {
            out.push(100);
            let mut idx: usize = 0;
            while idx < ps.len()
                invariant
                    idx <= ps@.len(),
                    out@ == old(out)@ + seq![100u8] + spec_encode_dict(
                        pair_models_of(ps@.take(idx as int)),
                    ),
                decreases ps@.len() - idx,
            {
                let pair = &ps[idx];
                push_byte_string(out, &pair.0);
                proof {
                    assert(*ps == (*v)->Dictionary_0);
                    assert(decreases_to!(*v => (*v)->Dictionary_0));
                    assert(decreases_to!(*ps => ps@));
                    assert(decreases_to!(ps@ => ps@[idx as int]));
                    assert(decreases_to!(ps@[idx as int] => ps@[idx as int].1));
                }
                encode_into(out, &pair.1);
                proof {
                    assert(ps@.take(idx + 1 as int) =~= ps@.take(idx as int).push(ps@[idx as int]));
                    lemma_pair_models_of_push(ps@.take(idx as int), ps@[idx as int]);
                    lemma_encode_dict_push(
                        pair_models_of(ps@.take(idx as int)),
                        (ps@[idx as int].0@, ps@[idx as int].1.model()),
                    );
                }
                idx += 1;
                assert(out@ =~= old(out)@ + seq![100u8] + spec_encode_dict(
                    pair_models_of(ps@.take(idx as int)),
                ));
            }
            out.push(101);
            proof {
                assert(ps@.take(ps@.len() as int) =~= ps@);
                assert(out@ =~= old(out)@ + spec_encode(v.model()));
            }
        },
    }
}

#[verifier::loop_isolation(false)]
fn find_byte(b: &Vec<u8>, from: usize, x: u8) -> (r: Option<usize>)
    requires
        from <= b@.len(),
    ensures
        match r {
            Some(i) => from <= i < b@.len() && b@[i as int] == x && spec_find(
                b@.skip(from as int),
                x,
            ) == Some(i - from),
            None => spec_find(b@.skip(from as int), x) is None,
        },
{
    let mut i: usize = from;
    while i < b.len()
        invariant
            from <= i <= b@.len(),
            forall|j: int| from <= j < i ==> b@[j] != x,
        decreases b@.len() - i,
    {
        if b[i] == x {
            proof {
                let sk = b@.skip(from as int);
                assert(sk[i - from] == x);
                assert(forall|j: int| 0 <= j < i - from ==> #[trigger] sk[j] == b@[j + from]);
                lemma_find_some(sk, x, i - from);
            }
            return Some(i);
        }
        i += 1;
    }
    proof {
        let sk = b@.skip(from as int);
        assert(forall|j: int| 0 <= j < sk.len() ==> #[trigger] sk[j] == b@[j + from]);
        lemma_find_none(sk, x);
    }
    None
}

proof fn lemma_digits_val_step(s: Seq<u8>, i: int)
    requires
        0 <= i < s.len(),
    ensures
        digits_val(s.take(i + 1)) == digits_val(s.take(i)) * 10 + (s[i] - 48),
{
    assert(s.take(i + 1).drop_last() =~= s.take(i));
    assert(s.take(i + 1).last() == s[i]);
}

/// The outcome of reading a run of decimal digits.
enum DigitScan {
    /// Some byte in the range is not a digit.
    NonDigit,
    /// All digits; the value fits in a `u64`.
    Fits(u64),
    /// All digits, but the value exceeds `u64::MAX`.
    TooBig,
}

#[verifier::loop_isolation(false)]
fn scan_digits(b: &Vec<u8>, from: usize, to: usize) -> (r: DigitScan)
    requires
        from <= to <= b@.len(),
    ensures
        ({
            let s = b@.subrange(from as int, to as int);
            match r {
                DigitScan::NonDigit => !all_digits(s),
                DigitScan::Fits(u) => all_digits(s) && u as int == digits_val(s),
                DigitScan::TooBig => all_digits(s) && digits_val(s) > u64::MAX,
            }
        }),
{
    let ghost s = b@.subrange(from as int, to as int);
    let mut i: usize = from;
    let mut u: u64 = 0;
    let mut big: bool = false;
    while i < to
        invariant
            from <= i <= to,
            all_digits(s.take(i - from)),
            !big ==> u as int == digits_val(s.take(i - from)),
            big ==> digits_val(s.take(i - from)) > u64::MAX,
        decreases to - i,
    {
        let d = b[i];
        proof {
            assert(s[i - from] == b@[i as int]);
        }
        if !(48 <= d && d <= 57) {
            proof {
                assert(!is_digit(s[i - from]));
            }
            return DigitScan::NonDigit;
        }
        let dd: u64 = (d - 48) as u64;
        proof {
            lemma_digits_val_step(s, i - from);
            assert(s.take(i - from + 1).len() == i - from + 1);
            assert(forall|j: int|
                0 <= j < i - from + 1 ==> #[trigger] s.take(i - from + 1)[j] == s[j]);
        }
        let ghost dv = digits_val(s.take(i - from));
        if big {
            proof {
                assert(dv * 10 + (dd as int) > u64::MAX) by (nonlinear_arith)
                    requires
                        dv > u64::MAX,
                        0 <= dd,
                ;
            }
        } else if u > (u64::MAX - dd) / 10 {
            proof {
                vstd::arithmetic::div_mod::lemma_fundamental_div_mod(
                    u64::MAX - dd as int,
                    10,
                );
                assert(u as int * 10 >= ((u64::MAX - dd as int) / 10 + 1) * 10)
                    by (nonlinear_arith)
                    requires
                        u as int >= (u64::MAX - dd as int) / 10 + 1,
                ;
            }
            big = true;
        } else {
            proof {
                vstd::arithmetic::div_mod::lemma_fundamental_div_mod(
                    u64::MAX - dd as int,
                    10,
                );
                assert(u as int * 10 <= ((u64::MAX - dd as int) / 10) * 10)
                    by (nonlinear_arith)
                    requires
                        u as int <= (u64::MAX - dd as int) / 10,
                ;
            }
            u = u * 10 + dd;
        }
        i += 1;
    }
    proof {
        assert(s.take(to - from) =~= s);
    }
    if big {
        DigitScan::TooBig
    } else {
        DigitScan::Fits(u)
    }
}

#[verifier::loop_isolation(false)]
fn decode_bytes_at(b: &Vec<u8>, from: usize) -> (r: Result<(Value, usize), DecodeError>)
    requires
        from < b@.len(),
    ensures
        ({
            let s = spec_decode_bytes(b@.skip(from as int));
            match r {
                Ok(p) => s == Ok::<(SpecValue, int), DecodeError>((p.0.model(), p.1 - from))
                    && from < p.1 <= b@.len(),
                Err(e) => s == Err::<(SpecValue, int), DecodeError>(e),
            }
        }),
{
    let ghost sk = b@.skip(from as int);
    let blen = b.len();
    match find_byte(b, from, 58) {
        None => Err(DecodeError::MissingDelimiter),
        Some(ci) => {
            proof {
                assert(sk.take(ci - from) =~= b@.subrange(from as int, ci as int));
            }
            if ci == from {
                return Err(DecodeError::InvalidNumber);
            }
            match scan_digits(b, from, ci) {
                DigitScan::NonDigit => Err(DecodeError::InvalidNumber),
                DigitScan::TooBig => {
                    proof {
                        let k = ci - from;
                        lemma_digits_val_nonneg(sk.take(k as int));
                        assert(sk.len() <= blen as int);
                        assert(blen <= usize::MAX);
                        assert(usize::MAX as int <= u64::MAX as int);
                        assert(sk.len() - k - 1 < digits_val(sk.take(k as int)));
                    }
                    Err(DecodeError::InvalidLength)
                },
                DigitScan::Fits(u) => {
                    let remaining = b.len() - ci - 1;
                    if (remaining as u64) < u {
                        Err(DecodeError::InvalidLength)
                    } else {
                        let len = u as usize;
                        let mut out: Vec<u8> = Vec::new();
                        let mut j: usize = 0;
                        while j < len
                            invariant
                                j <= len,
                                len == u,
                                u <= remaining,
                                remaining == b@.len() - ci - 1,
                                ci + 1 + len <= b@.len(),
                                from <= ci < b@.len(),
                                out@ == b@.subrange(ci + 1 as int, ci + 1 + j as int),
                            decreases len - j,
                        {
                            out.push(b[ci + 1 + j]);
                            proof {
                                assert(b@.subrange(ci + 1 as int, ci + 1 + (j + 1) as int)
                                    =~= b@.subrange(ci + 1 as int, ci + 1 + j as int).push(
                                    b@[ci + 1 + j as int],
                                ));
                            }
                            j += 1;
                        }
                        proof {
                            let k = ci - from;
                            assert(sk.subrange(k + 1, k + 1 + len as int) =~= b@.subrange(
                                ci + 1 as int,
                                ci + 1 + len as int,
                            ));
                        }
                        Ok((Value::ByteString(out), ci + 1 + len))
                    }
                },
            }
        },
    }
}

fn decode_int_at(b: &Vec<u8>, from: usize) -> (r: Result<(Value, usize), DecodeError>)
    requires
        from < b@.len(),
        b@[from as int] == 105,
    ensures
        ({
            let s = spec_decode_int(b@.skip(from as int));
            match r {
                Ok(p) => s == Ok::<(SpecValue, int), DecodeError>((p.0.model(), p.1 - from))
                    && from < p.1 <= b@.len(),
                Err(e) => s == Err::<(SpecValue, int), DecodeError>(e),
            }
        }),
{
    let ghost sk = b@.skip(from as int);
    let blen = b.len();
    proof {
        assert(sk.drop_first() =~= b@.skip(from + 1 as int));
    }
    match find_byte(b, from + 1, 101) {
        None => Err(DecodeError::MissingDelimiter),
        Some(ei) => {
            let ghost k = ei - (from + 1);
            let ghost body = sk.subrange(1, 1 + k as int);
            proof {
                assert(body =~= b@.subrange(from + 1 as int, ei as int));
            }
            let neg = b[from + 1] == 45;
            let ds = if neg {
                from + 2
            } else {
                from + 1
            };
            if ds >= ei {
                return Err(DecodeError::InvalidNumber);
            }
            proof {
                if neg {
                    assert(body.drop_first() =~= b@.subrange(ds as int, ei as int));
                } else {
                    assert(body =~= b@.subrange(ds as int, ei as int));
                }
            }
            match scan_digits(b, ds, ei) {
                DigitScan::NonDigit => Err(DecodeError::InvalidNumber),
                DigitScan::TooBig => {
                    proof {
                        let scanned = b@.subrange(ds as int, ei as int);
                        lemma_digits_val_nonneg(scanned);
                    }
                    Err(DecodeError::InvalidNumber)
                },
                DigitScan::Fits(u) => {
                    if neg {
                        if u > 9223372036854775808u64 {
                            Err(DecodeError::InvalidNumber)
                        } else {
                            let val: i64 = if u == 9223372036854775808u64 {
                                i64::MIN
                            } else {
                                -(u as i64)
                            };
                            Ok((Value::Integer(val), ei + 1))
                        }
                    } else {
                        if u > i64::MAX as u64 {
                            Err(DecodeError::InvalidNumber)
                        } else {
                            Ok((Value::Integer(u as i64), ei + 1))
                        }
                    }
                },
            }
        },
    }
}

/// Encode a value into its canonical bencode byte sequence.
pub fn encode(v: &Value) -> (r: Vec<u8>)
    ensures
        r@ == spec_encode(v.model()),
{
    let mut out: Vec<u8> = Vec::new();
    encode_into(&mut out, v);
    assert(out@ =~= spec_encode(v.model()));
    out
}

/// Decode one value from position `from` of `b`: on success, the value and
/// the position just past it. The result agrees exactly with the
/// mathematical decoder on the remaining input.
#[verifier::loop_isolation(false)]
pub fn decode_at(b: &Vec<u8>, from: usize) -> (r: Result<(Value, usize), DecodeError>)
    requires
        from <= b@.len(),
    ensures
        ({
            let s = spec_decode(b@.skip(from as int));
            match r {
                Ok(p) => s matches Ok(q) && q.0 == p.0.model() && q.1 == p.1 - from && from
                    < p.1 <= b@.len(),
                Err(e) => s matches Err(e2) && e2 == e,
            }
        }),
    decreases b@.len() - from,
{
    let ghost sk = b@.skip(from as int);
    let blen = b.len();
    if from == blen {
        return Err(DecodeError::EmptyInput);
    }
    let c = b[from];
    proof {
        assert(sk.first() == b@[from as int]);
        assert(sk.drop_first() =~= b@.skip(from + 1 as int));
    }
    if c == 105 {
        decode_int_at(b, from)
    } else if c == 108 {
        let mut items: Vec<Value> = Vec::new();
        let mut pos: usize = from + 1;
        proof {
            assert(items@ =~= Seq::<Value>::empty());
            let cur = spec_decode_list(b@.skip(pos as int));
            if cur is Ok {
                assert(models_of(items@) + cur->Ok_0.0 =~= cur->Ok_0.0);
            }
        }
        loop
            invariant
                from + 1 <= pos <= b@.len(),
                ({
                    let orig = spec_decode_list(b@.skip(from + 1 as int));
                    let cur = spec_decode_list(b@.skip(pos as int));
                    match cur {
                        Ok(p) => orig matches Ok(q) && q.0 == models_of(items@) + p.0 && q.1
                            == pos - from - 1 + p.1,
                        Err(e) => orig matches Err(e2) && e2 == e,
                    }
                }),
            decreases b@.len() - pos,
        {
            if pos == blen {
                return Err(DecodeError::MissingDelimiter);
            }
            if b[pos] == 101 {
                proof {
                    assert(b@.skip(pos as int).first() == 101);
                    assert(models_of(items@) + Seq::<SpecValue>::empty() =~= models_of(
                        items@,
                    ));
                }
                return Ok((Value::List(items), pos + 1));
            }
            proof {
                assert(b@.skip(pos as int).first() == b@[pos as int]);
            }
            match decode_at(b, pos) {
                Err(e) => {
                    return Err(e);
                },
                Ok((v, end)) => {
                    proof {
                        let skp = b@.skip(pos as int);
                        let n = end - pos;
                        assert(skp.skip(n as int) =~= b@.skip(end as int));
                        lemma_models_of_push(items@, v);
                        if spec_decode_list(b@.skip(end as int)) is Ok {
                            let p2 = spec_decode_list(b@.skip(end as int))->Ok_0;
                            assert(models_of(items@) + (seq![v.model()] + p2.0) =~= models_of(
                                items@.push(v),
                            ) + p2.0);
                        }
                    }
                    items.push(v);
                    pos = end;
                },
            }
        }
    } else if c == 100 {
        let mut entries: Vec<(Vec<u8>, Value)> = Vec::new();
        let mut pos: usize = from + 1;
        proof {
            assert(entries@ =~= Seq::<(Vec<u8>, Value)>::empty());
            let cur = spec_decode_dict(b@.skip(pos as int));
            if cur is Ok {
                assert(pair_models_of(entries@) + cur->Ok_0.0 =~= cur->Ok_0.0);
            }
        }
        loop
            invariant
                from + 1 <= pos <= b@.len(),
                ({
                    let orig = spec_decode_dict(b@.skip(from + 1 as int));
                    let cur = spec_decode_dict(b@.skip(pos as int));
                    match cur {
                        Ok(p) => orig matches Ok(q) && q.0 == pair_models_of(entries@) + p.0
                            && q.1 == pos - from - 1 + p.1,
                        Err(e) => orig matches Err(e2) && e2 == e,
                    }
                }),
            decreases b@.len() - pos,
        {
            if pos == blen {
                return Err(DecodeError::MissingDelimiter);
            }
            if b[pos] == 101 {
                proof {
                    assert(b@.skip(pos as int).first() == 101);
                    assert(pair_models_of(entries@) + Seq::<(Seq<u8>, SpecValue)>::empty()
                        =~= pair_models_of(entries@));
                }
                return Ok((Value::Dictionary(entries), pos + 1));
            }
            proof {
                assert(b@.skip(pos as int).first() == b@[pos as int]);
            }
            match decode_at(b, pos) {
                Err(e) => {
                    return Err(e);
                },
                Ok((kv, kend)) => {
                    let kb = match kv {
                        Value::ByteString(kb) => kb,
                        _ => {
                            return Err(DecodeError::InvalidKey);
                        },
                    };
                    proof {
                        let skp = b@.skip(pos as int);
                        let n = kend - pos;
                        assert(skp.skip(n as int) =~= b@.skip(kend as int));
                    }
                    match decode_at(b, kend) {
                        Err(e) => {
                            return Err(e);
                        },
                        Ok((vv, vend)) => {
                            proof {
                                let skp = b@.skip(pos as int);
                                let n = kend - pos;
                                let m = vend - kend;
                                assert(skp.skip(n + m as int) =~= b@.skip(vend as int));
                                lemma_pair_models_of_push(entries@, (kb, vv));
                                if spec_decode_dict(b@.skip(vend as int)) is Ok {
                                    let p2 = spec_decode_dict(b@.skip(vend as int))->Ok_0;
                                    assert(pair_models_of(entries@) + (seq![
                                        (kb@, vv.model()),
                                    ] + p2.0) =~= pair_models_of(entries@.push((kb, vv)))
                                        + p2.0);
                                }
                            }
                            entries.push((kb, vv));
                            pos = vend;
                        },
                    }
                },
            }
        }
    } else {
        decode_bytes_at(b, from)
    }
}

/// Decode the first value of `b`, together with the position just past it.
pub fn decode_prefix(b: &Vec<u8>) -> (r: Result<(Value, usize), DecodeError>)
    ensures
        ({
            let s = spec_decode(b@);
            match r {
                Ok(p) => s matches Ok(q) && q.0 == p.0.model() && q.1 == p.1 && 0 < p.1
                    <= b@.len(),
                Err(e) => s matches Err(e2) && e2 == e,
            }
        }),
{
    proof {
        assert(b@.skip(0) =~= b@);
    }
    decode_at(b, 0)
}

/// Decode the first value of `b`, discarding anything that follows it.
pub fn decode(b: &Vec<u8>) -> (r: Result<Value, DecodeError>)
    ensures
        ({
            let s = spec_decode(b@);
            match r {
                Ok(v) => s matches Ok(q) && q.0 == v.model(),
                Err(e) => s matches Err(e2) && e2 == e,
            }
        }),
{
    match decode_prefix(b) {
        Ok((v, _)) => Ok(v),
        Err(e) => Err(e),
    }
}

/// The value at the first occurrence of `key` among the pairs, if any.
pub open spec fn spec_lookup(ps: Seq<(Seq<u8>, SpecValue)>, key: Seq<u8>) -> Option<SpecValue>
    decreases ps,
{
    if ps.len() == 0 {
        None
    } else if ps.first().0 == key {
        Some(ps.first().1)
    } else {
        spec_lookup(ps.drop_first(), key)
    }
}

/// The elementwise model of a pair sequence has the same length and models
/// each pair in place.
pub proof fn lemma_pair_models_of_index(s: Seq<(Vec<u8>, Value)>)
    ensures
        pair_models_of(s).len() == s.len(),
        forall|i: int|
            0 <= i < s.len() ==> #[trigger] pair_models_of(s)[i] == (s[i].0@, s[i].1.model()),
    decreases s,
{
    if s.len() > 0 {
        lemma_pair_models_of_index(s.drop_first());
    }
}

proof fn lemma_pair_models_of_drop(s: Seq<(Vec<u8>, Value)>)
    requires
        s.len() > 0,
    ensures
        pair_models_of(s).drop_first() == pair_models_of(s.drop_first()),
{
    assert(pair_models_of(s).drop_first() =~= pair_models_of(s.drop_first()));
}

proof fn lemma_lookup_skip_step(s: Seq<(Vec<u8>, Value)>, i: int, key: Seq<u8>)
    requires
        0 <= i < s.len(),
    ensures
        spec_lookup(pair_models_of(s.skip(i)), key) == if s[i].0@ == key {
            Some(s[i].1.model())
        } else {
            spec_lookup(pair_models_of(s.skip(i + 1)), key)
        },
{
    let t = s.skip(i);
    assert(t.len() > 0);
    assert(t.first() == s[i]);
    lemma_pair_models_of_drop(t);
    assert(t.drop_first() =~= s.skip(i + 1));
    assert(pair_models_of(t).first() == (s[i].0@, s[i].1.model()));
    assert(pair_models_of(t).len() > 0) by {
        lemma_pair_models_of_index(t);
    }
}

/// Whether two byte vectors hold the same bytes.
pub fn bytes_eq(a: &Vec<u8>, b: &Vec<u8>) -> (r: bool)
    ensures
        r == (a@ == b@),
{
    if a.len() != b.len() {
        assert(a@ != b@);
        return false;
    }
    let mut i: usize = 0;
    while i < a.len()
        invariant
            i <= a@.len(),
            a@.len() == b@.len(),
            forall|j: int| 0 <= j < i ==> a@[j] == b@[j],
        decreases a@.len() - i,
    {
        if a[i] != b[i] {
            assert(a@ != b@);
            return false;
        }
        i += 1;
    }
    proof {
        assert(a@ =~= b@);
    }
    true
}

/// Look up `key` among the dictionary pairs, first occurrence wins.
#[verifier::loop_isolation(false)]
pub fn dict_get<'a>(ps: &'a Vec<(Vec<u8>, Value)>, key: &Vec<u8>) -> (r: Option<&'a Value>)
    ensures
        match r {
            Some(v) => spec_lookup(pair_models_of(ps@), key@) == Some(v.model()),
            None => spec_lookup(pair_models_of(ps@), key@) is None,
        },
{
    let mut i: usize = 0;
    proof {
        assert(ps@.skip(0) =~= ps@);
    }
    while i < ps.len()
        invariant
            i <= ps@.len(),
            spec_lookup(pair_models_of(ps@), key@) == spec_lookup(
                pair_models_of(ps@.skip(i as int)),
                key@,
            ),
        decreases ps@.len() - i,
    {
        proof {
            lemma_lookup_skip_step(ps@, i as int, key@);
        }
        if bytes_eq(&ps[i].0, key) {
            return Some(&ps[i].1);
        }
        i += 1;
    }
    proof {
        assert(ps@.skip(ps@.len() as int) =~= Seq::<(Vec<u8>, Value)>::empty());
    }
    None
}

} // verus!

