//! An encoder for the object format, and the laws that decoding undoes it.
use vstd::prelude::*;
use vstd::utf8::{encode_utf8, encode_utf8_decode_utf8, encode_utf8_valid_utf8};
use crate::bytes::{
    be_u32_at, decimal_bytes, is_digit, lemma_decimal_bytes, lemma_decimal_len, lemma_pow10_20,
    parse_i64_spec, parse_u64_spec,
};
use crate::decode::{
    advances, is_scalar, parse_bare, parse_buffer, parse_elems, parse_entries, parse_expected,
    parse_fields, parse_items, parse_scalar, parse_short, parse_str, parse_tagged, Parsed,
};
use crate::error::Error;
use crate::object::{key_of, kind_of_tag, lemma_key_of_injective, tag_spec, Key, Kind, Value};

verus! {

/// The four bytes that write `u` big-endian.
pub open spec fn be_bytes(u: int) -> Seq<u8> {
    seq![
        (u / 16777216) as u8,
        ((u / 65536) % 256) as u8,
        ((u / 256) % 256) as u8,
        (u % 256) as u8,
    ]
}

/// The 32-bit pattern of a signed length.
pub open spec fn unsigned32(n: int) -> int {
    if n < 0 {
        n + 0x1_0000_0000
    } else {
        n
    }
}

proof fn lemma_be_bytes(u: int, pre: Seq<u8>, rest: Seq<u8>)
    requires
        0 <= u < 0x1_0000_0000,
    ensures
        be_u32_at(pre + be_bytes(u) + rest, pre.len() as int) == u,
{
    let s = pre + be_bytes(u) + rest;
    let p = pre.len() as int;
    assert(s[p] == (u / 16777216) as u8);
    assert(s[p + 1] == ((u / 65536) % 256) as u8);
    assert(s[p + 2] == ((u / 256) % 256) as u8);
    assert(s[p + 3] == (u % 256) as u8);
}

/// `n` as ASCII decimal, with a leading minus sign when negative.
pub open spec fn signed_ascii(n: int) -> Seq<u8> {
    if n < 0 {
        seq![45u8] + decimal_bytes((-n) as nat)
    } else {
        decimal_bytes(n as nat)
    }
}

proof fn lemma_signed_ascii(n: i64)
    ensures
        parse_i64_spec(signed_ascii(n as int)) == Some(n),
        1 <= signed_ascii(n as int).len() <= 21,
{
    let m: nat = if n < 0 { (-n) as nat } else { n as nat };
    lemma_decimal_bytes(m);
    lemma_pow10_20();
    lemma_decimal_len(m, 20);
    let d = decimal_bytes(m);
    let s = signed_ascii(n as int);
    if n < 0 {
        assert(s.subrange(1, s.len() as int) =~= d);
        assert(s[0] == 45u8);
    } else {
        assert(is_digit(d[0]));
    }
}

proof fn lemma_unsigned_ascii(t: u64)
    ensures
        parse_u64_spec(decimal_bytes(t as nat)) == Some(t),
        1 <= decimal_bytes(t as nat).len() <= 20,
{
    lemma_decimal_bytes(t as nat);
    lemma_pow10_20();
    lemma_decimal_len(t as nat, 20);
    assert(is_digit(decimal_bytes(t as nat)[0]));
}

proof fn lemma_short_field(b: Seq<u8>, pre: Seq<u8>, rest: Seq<u8>)
    requires
        b.len() < 256,
    ensures
        parse_short(pre + (seq![b.len() as u8] + b) + rest, pre.len() as int) == Ok::<_, Error>(
            (b, pre.len() + 1 + b.len() as int),
        ),
{
    let s = pre + (seq![b.len() as u8] + b) + rest;
    let p = pre.len() as int;
    assert(s[p] == b.len() as u8);
    assert(s.subrange(p + 1, p + 1 + b.len()) =~= b);
}

proof fn lemma_long_round_trip(n: i64, pre: Seq<u8>, rest: Seq<u8>)
    ensures
        scalar_round_trips(Value::Long(n), pre, rest),
{
    lemma_signed_ascii(n);
    lemma_short_field(signed_ascii(n as int), pre, rest);
}

proof fn lemma_time_round_trip(t: u64, pre: Seq<u8>, rest: Seq<u8>)
    ensures
        scalar_round_trips(Value::Time(t), pre, rest),
{
    lemma_unsigned_ascii(t);
    lemma_short_field(decimal_bytes(t as nat), pre, rest);
}

/// The bytes of a string or buffer of content `b`: its length, then `b`.
pub open spec fn length_prefixed(b: Option<Seq<u8>>) -> Seq<u8> {
    match b {
        None => be_bytes(unsigned32(-1)),
        Some(b) => be_bytes(b.len() as int) + b,
    }
}

proof fn lemma_buffer_round_trip(b: Option<Seq<u8>>, pre: Seq<u8>, rest: Seq<u8>)
    requires
        b matches Some(x) ==> x.len() < 0x8000_0000,
    ensures
        parse_buffer(pre + length_prefixed(b) + rest, pre.len() as int) == Ok::<_, Error>(
            (b, (pre.len() + length_prefixed(b).len()) as int),
        ),
{
    let p = pre.len() as int;
    match b {
        None => {
            lemma_be_bytes(unsigned32(-1), pre, rest);
        },
        Some(x) => {
            let s = pre + length_prefixed(b) + rest;
            assert(s =~= pre + be_bytes(x.len() as int) + (x + rest));
            lemma_be_bytes(x.len() as int, pre, x + rest);
            assert(s.subrange(p + 4, p + 4 + x.len()) =~= x);
        },
    }
}

/// The bytes of a string value.
pub open spec fn str_bytes(t: Option<Seq<char>>) -> Seq<u8> {
    match t {
        None => length_prefixed(None),
        Some(c) => length_prefixed(Some(encode_utf8(c))),
    }
}

/// A string that the encoder wrote decodes back, at any position, whatever follows it.
pub proof fn lemma_str_round_trip(t: Option<Seq<char>>, pre: Seq<u8>, rest: Seq<u8>)
    requires
        t matches Some(c) ==> encode_utf8(c).len() < 0x8000_0000,
    ensures
        parse_str(pre + str_bytes(t), pre.len() as int) == parse_str(
            pre + str_bytes(t) + rest,
            pre.len() as int,
        ),
        parse_str(pre + str_bytes(t) + rest, pre.len() as int) == Ok::<_, Error>(
            (t, (pre.len() + str_bytes(t).len()) as int),
        ),
{
    match t {
        None => {
            lemma_buffer_round_trip(None, pre, rest);
            lemma_buffer_round_trip(None, pre, Seq::empty());
            assert(pre + str_bytes(t) + Seq::empty() =~= pre + str_bytes(t));
        },
        Some(c) => {
            encode_utf8_valid_utf8(c);
            encode_utf8_decode_utf8(c);
            lemma_buffer_round_trip(Some(encode_utf8(c)), pre, rest);
            lemma_buffer_round_trip(Some(encode_utf8(c)), pre, Seq::empty());
            assert(pre + str_bytes(t) + Seq::empty() =~= pre + str_bytes(t));
        },
    }
}

/// The values that the encoder below can write: those that hold no other objects, with
/// lengths that their prefixes can state.
pub open spec fn encodable(v: Value) -> bool {
    match v {
        Value::Char(_) | Value::Int(_) | Value::Long(_) | Value::Time(_) => true,
        Value::Str(t) => t matches Some(c) ==> encode_utf8(c).len() < 0x8000_0000,
        Value::Buffer(b) => b matches Some(x) ==> x.len() < 0x8000_0000,
        Value::Pointer(c) => encode_utf8(c).len() < 256,
        Value::Info(n, w) => (n matches Some(c) ==> encode_utf8(c).len() < 0x8000_0000) && (
        w matches Some(c) ==> encode_utf8(c).len() < 0x8000_0000),
        _ => false,
    }
}

/// The kind of a value.
pub open spec fn kind_of_value(v: Value) -> Kind {
    match v {
        Value::Char(_) => Kind::Char,
        Value::Int(_) => Kind::Int,
        Value::Long(_) => Kind::Long,
        Value::Str(_) => Kind::Str,
        Value::Buffer(_) => Kind::Buffer,
        Value::Pointer(_) => Kind::Pointer,
        Value::Time(_) => Kind::Time,
        Value::HashTable(_) => Kind::HashTable,
        Value::Info(_, _) => Kind::Info,
        Value::InfoList(_, _) => Kind::InfoList,
        Value::Array(_) => Kind::Array,
    }
}

/// An encoder for the values that hold no other objects: the bytes that write `v`
/// without its tag.
pub open spec fn encode_bare(v: Value) -> Seq<u8> {
    match v {
        Value::Char(c) => seq![(if c < 0 { c + 256 } else { c as int }) as u8],
        Value::Int(n) => be_bytes(unsigned32(n as int)),
        Value::Long(n) => seq![signed_ascii(n as int).len() as u8] + signed_ascii(n as int),
        Value::Time(t) => seq![decimal_bytes(t as nat).len() as u8] + decimal_bytes(t as nat),
        Value::Str(t) => str_bytes(t),
        Value::Buffer(b) => length_prefixed(b),
        Value::Pointer(c) => seq![encode_utf8(c).len() as u8] + encode_utf8(c),
        Value::Info(n, w) => str_bytes(n) + str_bytes(w),
        _ => Seq::empty(),
    }
}

/// Decoding what the encoder wrote gives the value back, and stops where the
/// encoding ends, whatever follows it; with its tag in front, the same holds of the
/// tagged decoder and of the decoder that asks for the value's kind.
#[verifier::rlimit(40)]
pub proof fn lemma_round_trip(v: Value, rest: Seq<u8>)
    requires
        encodable(v),
    ensures
        parse_bare(kind_of_value(v), encode_bare(v) + rest, 0) == Ok::<_, Error>(
            (v, encode_bare(v).len() as int),
        ),
        parse_tagged(tag_spec(kind_of_value(v)) + encode_bare(v) + rest, 0) == Ok::<_, Error>(
            (v, 3 + encode_bare(v).len() as int),
        ),
        parse_expected(kind_of_value(v), tag_spec(kind_of_value(v)) + encode_bare(v) + rest, 0)
            == Ok::<_, Error>((v, 3 + encode_bare(v).len() as int)),
{
    let k = kind_of_value(v);
    let e = encode_bare(v);
    let t = tag_spec(k);
    lemma_tag_len(k);
    lemma_round_trip_at(v, Seq::empty(), rest);
    assert(Seq::<u8>::empty() + e + rest =~= e + rest);
    lemma_round_trip_at(v, t, rest);
    assert((t + e + rest).subrange(0, 3) =~= t);
    lemma_tagged_unfold(t + e + rest, k, Ok((v, 3 + e.len() as int)));
}

proof fn lemma_tag_len(k: Kind)
    ensures
        tag_spec(k).len() == 3,
{
}

proof fn lemma_tags_known(k: Kind)
    ensures
        kind_of_tag(tag_spec(k)) == Some(k),
{
}

proof fn lemma_tagged_unfold(s: Seq<u8>, k: Kind, r: Parsed)
    requires
        s.len() >= 3,
        s.subrange(0, 3) == tag_spec(k),
        parse_bare(k, s, 3) == r,
    ensures
        parse_tagged(s, 0) == r,
        parse_expected(k, s, 0) == r,
{
    lemma_tags_known(k);
}

proof fn lemma_scalar_bare(k: Kind, s: Seq<u8>, p: int)
    requires
        is_scalar(k),
    ensures
        parse_bare(k, s, p) == parse_scalar(k, s, p),
{
}

proof fn lemma_round_trip_at(v: Value, pre: Seq<u8>, rest: Seq<u8>)
    requires
        encodable(v),
    ensures
        parse_bare(kind_of_value(v), pre + encode_bare(v) + rest, pre.len() as int) == Ok::<
            _,
            Error,
        >((v, (pre.len() + encode_bare(v).len()) as int)),
{
    let s = pre + encode_bare(v) + rest;
    let p = pre.len() as int;
    lemma_scalar_bare(kind_of_value(v), s, p);
    lemma_scalar_round_trip(v, pre, rest);
}

/// Decoding a scalar at the position where the encoder wrote it.
pub open spec fn scalar_round_trips(v: Value, pre: Seq<u8>, rest: Seq<u8>) -> bool {
    parse_scalar(kind_of_value(v), pre + encode_bare(v) + rest, pre.len() as int) == Ok::<
        _,
        Error,
    >((v, (pre.len() + encode_bare(v).len()) as int))
}

proof fn lemma_scalar_round_trip(v: Value, pre: Seq<u8>, rest: Seq<u8>)
    requires
        encodable(v),
    ensures
        scalar_round_trips(v, pre, rest),
{
    match v {
        Value::Char(c) => lemma_char_round_trip(c, pre, rest),
        Value::Int(n) => lemma_int_round_trip(n, pre, rest),
        Value::Long(n) => lemma_long_round_trip(n, pre, rest),
        Value::Time(t) => lemma_time_round_trip(t, pre, rest),
        Value::Str(t) => lemma_str_value_round_trip(t, pre, rest),
        Value::Buffer(b) => lemma_buffer_value_round_trip(b, pre, rest),
        Value::Pointer(c) => lemma_pointer_round_trip(c, pre, rest),
        Value::Info(n, w) => lemma_info_value_round_trip(n, w, pre, rest),
        _ => {},
    }
}

proof fn lemma_char_round_trip(c: i8, pre: Seq<u8>, rest: Seq<u8>)
    ensures
        scalar_round_trips(Value::Char(c), pre, rest),
{
    let s = pre + encode_bare(Value::Char(c)) + rest;
    assert(s[pre.len() as int] == encode_bare(Value::Char(c))[0]);
}

proof fn lemma_int_round_trip(n: i32, pre: Seq<u8>, rest: Seq<u8>)
    ensures
        scalar_round_trips(Value::Int(n), pre, rest),
{
    lemma_be_bytes(unsigned32(n as int), pre, rest);
}

proof fn lemma_str_value_round_trip(t: Option<Seq<char>>, pre: Seq<u8>, rest: Seq<u8>)
    requires
        t matches Some(c) ==> encode_utf8(c).len() < 0x8000_0000,
    ensures
        scalar_round_trips(Value::Str(t), pre, rest),
{
    lemma_str_round_trip(t, pre, rest);
}

proof fn lemma_buffer_value_round_trip(b: Option<Seq<u8>>, pre: Seq<u8>, rest: Seq<u8>)
    requires
        b matches Some(x) ==> x.len() < 0x8000_0000,
    ensures
        scalar_round_trips(Value::Buffer(b), pre, rest),
{
    lemma_buffer_round_trip(b, pre, rest);
}

#[verifier::rlimit(40)]
proof fn lemma_info_value_round_trip(
    n: Option<Seq<char>>,
    w: Option<Seq<char>>,
    pre: Seq<u8>,
    rest: Seq<u8>,
)
    requires
        n matches Some(c) ==> encode_utf8(c).len() < 0x8000_0000,
        w matches Some(c) ==> encode_utf8(c).len() < 0x8000_0000,
    ensures
        scalar_round_trips(Value::Info(n, w), pre, rest),
{
    let e = encode_bare(Value::Info(n, w));
    assert(e == str_bytes(n) + str_bytes(w));
    lemma_concat_assoc(pre, str_bytes(n), str_bytes(w), rest);
    lemma_info_round_trip(n, w, pre, rest);
}

proof fn lemma_concat_assoc(pre: Seq<u8>, a: Seq<u8>, b: Seq<u8>, rest: Seq<u8>)
    ensures
        pre + (a + b) + rest == pre + a + b + rest,
{
    assert(pre + (a + b) + rest =~= pre + a + b + rest);
}

proof fn lemma_pointer_round_trip(c: Seq<char>, pre: Seq<u8>, rest: Seq<u8>)
    requires
        encode_utf8(c).len() < 256,
    ensures
        scalar_round_trips(Value::Pointer(c), pre, rest),
{
    let s = pre + encode_bare(Value::Pointer(c)) + rest;
    let p = pre.len() as int;
    let b = encode_utf8(c);
    encode_utf8_valid_utf8(c);
    encode_utf8_decode_utf8(c);
    assert(s[p] == b.len() as u8);
    assert(s.subrange(p + 1, p + 1 + b.len()) =~= b);
}

proof fn lemma_info_round_trip(
    n: Option<Seq<char>>,
    w: Option<Seq<char>>,
    pre: Seq<u8>,
    rest: Seq<u8>,
)
    requires
        n matches Some(c) ==> encode_utf8(c).len() < 0x8000_0000,
        w matches Some(c) ==> encode_utf8(c).len() < 0x8000_0000,
    ensures
        parse_scalar(Kind::Info, pre + str_bytes(n) + str_bytes(w) + rest, pre.len() as int)
            == Ok::<_, Error>(
            (Value::Info(n, w), (pre.len() + str_bytes(n).len() + str_bytes(w).len()) as int),
        ),
{
    let s = pre + str_bytes(n) + str_bytes(w) + rest;
    lemma_str_round_trip(n, pre, str_bytes(w) + rest);
    assert(pre + str_bytes(n) + (str_bytes(w) + rest) =~= s);
    lemma_str_round_trip(w, pre + str_bytes(n), rest);
}

/// The encodings of `vs`, one after the other.
pub open spec fn encode_all(vs: Seq<Value>) -> Seq<u8>
    decreases vs.len(),
{
    if vs.len() == 0 {
        Seq::empty()
    } else {
        encode_all(vs.drop_last()) + encode_bare(vs.last())
    }
}

/// An array of elements of kind `k`, without its own tag: element tag, count, elements.
pub open spec fn encode_array(k: Kind, vs: Seq<Value>) -> Seq<u8> {
    tag_spec(k) + be_bytes(vs.len() as int) + encode_all(vs)
}

/// Decoding an array that the encoder wrote, its elements all encodable values of one
/// kind, gives the elements back in their order, and stops where the encoding ends.
pub proof fn lemma_array_round_trip(k: Kind, vs: Seq<Value>, rest: Seq<u8>)
    requires
        vs.len() < 0x1_0000_0000,
        forall|i: int|
            0 <= i < vs.len() ==> encodable(#[trigger] vs[i]) && kind_of_value(vs[i]) == k,
    ensures
        parse_bare(Kind::Array, encode_array(k, vs) + rest, 0) == Ok::<_, Error>(
            (Value::Array(vs), encode_array(k, vs).len() as int),
        ),
{
    let t = tag_spec(k);
    let s = encode_array(k, vs) + rest;
    lemma_tag_len(k);
    lemma_tags_known(k);
    assert(s =~= t + be_bytes(vs.len() as int) + (encode_all(vs) + rest));
    lemma_be_bytes(vs.len() as int, t, encode_all(vs) + rest);
    assert(s.subrange(0, 3) =~= t);
    assert(s =~= (t + be_bytes(vs.len() as int)) + encode_all(vs) + rest);
    assert(vs.take(0) =~= Seq::<Value>::empty());
    lemma_elems_round_trip(k, vs, 0, t + be_bytes(vs.len() as int), rest);
}

proof fn lemma_elems_round_trip(k: Kind, vs: Seq<Value>, i: int, base: Seq<u8>, rest: Seq<u8>)
    requires
        0 <= i <= vs.len(),
        forall|j: int|
            0 <= j < vs.len() ==> encodable(#[trigger] vs[j]) && kind_of_value(vs[j]) == k,
    ensures
        parse_elems(
            k,
            (vs.len() - i) as nat,
            base + encode_all(vs) + rest,
            (base.len() + encode_all(vs.take(i)).len()) as int,
            vs.take(i),
        ) == Ok::<_, Error>((Value::Array(vs), (base.len() + encode_all(vs).len()) as int)),
    decreases vs.len() - i,
{
    if i == vs.len() {
        assert(vs.take(i) =~= vs);
    } else {
        lemma_elem_step(k, vs, i, base, rest);
        lemma_elems_round_trip(k, vs, i + 1, base, rest);
    }
}

proof fn lemma_elem_step(k: Kind, vs: Seq<Value>, i: int, base: Seq<u8>, rest: Seq<u8>)
    requires
        0 <= i < vs.len(),
        forall|j: int|
            0 <= j < vs.len() ==> encodable(#[trigger] vs[j]) && kind_of_value(vs[j]) == k,
    ensures
        ({
            let s = base + encode_all(vs) + rest;
            let pos = (base.len() + encode_all(vs.take(i)).len()) as int;
            let end = (base.len() + encode_all(vs.take(i + 1)).len()) as int;
            &&& parse_bare(k, s, pos) == Ok::<_, Error>((vs[i], end))
            &&& advances(s, pos, end)
            &&& vs.take(i).push(vs[i]) == vs.take(i + 1)
        }),
{
    let v = vs[i];
    assert(encodable(v) && kind_of_value(v) == k);
    lemma_elems_at(vs, i, base, rest);
    lemma_round_trip_at(v, base + encode_all(vs.take(i)), encode_all(vs.skip(i + 1)) + rest);
    lemma_encoding_nonempty(v);
    assert(vs.take(i).push(v) =~= vs.take(i + 1));
}

proof fn lemma_elems_at(vs: Seq<Value>, i: int, base: Seq<u8>, rest: Seq<u8>)
    requires
        0 <= i < vs.len(),
    ensures
        base + encode_all(vs) + rest == (base + encode_all(vs.take(i))) + encode_bare(vs[i]) + (
        encode_all(vs.skip(i + 1)) + rest),
        encode_all(vs.take(i + 1)) == encode_all(vs.take(i)) + encode_bare(vs[i]),
{
    lemma_encode_all_split(vs, i + 1);
    lemma_encode_all_step(vs, i);
    let a = encode_all(vs.take(i));
    let b = encode_bare(vs[i]);
    let c = encode_all(vs.skip(i + 1));
    assert(base + (a + b + c) + rest =~= (base + a) + b + (c + rest));
}

proof fn lemma_encode_all_step(vs: Seq<Value>, i: int)
    requires
        0 <= i < vs.len(),
    ensures
        encode_all(vs.take(i + 1)) == encode_all(vs.take(i)) + encode_bare(vs[i]),
{
    assert(vs.take(i + 1).drop_last() =~= vs.take(i));
}

proof fn lemma_encode_all_split(vs: Seq<Value>, j: int)
    requires
        0 <= j <= vs.len(),
    ensures
        encode_all(vs) == encode_all(vs.take(j)) + encode_all(vs.skip(j)),
    decreases vs.len(),
{
    if j == vs.len() {
        assert(vs.take(j) =~= vs);
        assert(vs.skip(j) =~= Seq::<Value>::empty());
        assert(encode_all(vs) + Seq::<u8>::empty() =~= encode_all(vs));
    } else {
        let d = vs.drop_last();
        lemma_encode_all_split(d, j);
        assert(vs.take(j) =~= d.take(j));
        assert(vs.skip(j).drop_last() =~= d.skip(j));
        assert(vs.skip(j).last() == vs.last());
        assert(encode_all(d.take(j)) + encode_all(d.skip(j)) + encode_bare(vs.last())
            =~= encode_all(d.take(j)) + (encode_all(d.skip(j)) + encode_bare(vs.last())));
    }
}

proof fn lemma_encoding_nonempty(v: Value)
    requires
        encodable(v),
    ensures
        encode_bare(v).len() >= 1,
{
    match v {
        Value::Long(n) => lemma_signed_ascii(n),
        Value::Time(t) => lemma_unsigned_ascii(t),
        Value::Str(t) => {
            assert(str_bytes(t).len() >= 4);
        },
        Value::Info(n, w) => {
            assert(str_bytes(n).len() >= 4);
        },
        _ => {},
    }
}

/// The mapping that entries stand for: each entry whose key can be a key maps that key
/// to its value, a later entry overriding an earlier one.
pub open spec fn pairs_map(ps: Seq<(Value, Value)>) -> Map<Key, Value>
    decreases ps.len(),
{
    if ps.len() == 0 {
        Map::empty()
    } else {
        match key_of(ps.last().0) {
            Some(k) => pairs_map(ps.drop_last()).insert(k, ps.last().1),
            None => pairs_map(ps.drop_last()),
        }
    }
}

/// The mappings that the items of an info list stand for.
pub open spec fn maps_of(items: Seq<Seq<(Value, Value)>>) -> Seq<Map<Key, Value>>
    decreases items.len(),
{
    if items.len() == 0 {
        Seq::empty()
    } else {
        maps_of(items.drop_last()).push(pairs_map(items.last()))
    }
}

/// The encodings of the entries `ps`, each key followed by its value.
pub open spec fn encode_pairs(ps: Seq<(Value, Value)>) -> Seq<u8>
    decreases ps.len(),
{
    if ps.len() == 0 {
        Seq::empty()
    } else {
        encode_pairs(ps.drop_last()) + encode_bare(ps.last().0) + encode_bare(ps.last().1)
    }
}

/// A table with keys of kind `kk` and values of kind `vk`, without its own tag.
pub open spec fn encode_table(kk: Kind, vk: Kind, ps: Seq<(Value, Value)>) -> Seq<u8> {
    tag_spec(kk) + tag_spec(vk) + be_bytes(ps.len() as int) + encode_pairs(ps)
}

/// The entries that a table may hold: encodable keys of kind `kk` and encodable values of
/// kind `vk`.
pub open spec fn table_entries(kk: Kind, vk: Kind, ps: Seq<(Value, Value)>) -> bool {
    &&& forall|i: int|
        0 <= i < ps.len() ==> encodable(#[trigger] ps[i].0) && kind_of_value(ps[i].0) == kk
            && encodable(ps[i].1) && kind_of_value(ps[i].1) == vk
}

/// Decoding a table that the encoder wrote gives the mapping that its entries stand for,
/// a later entry overriding an earlier one with an equal key, and stops where the
/// encoding ends.
#[verifier::rlimit(100)]
pub proof fn lemma_table_round_trip(kk: Kind, vk: Kind, ps: Seq<(Value, Value)>, rest: Seq<u8>)
    requires
        ps.len() < 0x1_0000_0000,
        table_entries(kk, vk, ps),
    ensures
        parse_bare(Kind::HashTable, encode_table(kk, vk, ps) + rest, 0) == Ok::<_, Error>(
            (Value::HashTable(pairs_map(ps)), encode_table(kk, vk, ps).len() as int),
        ),
{
    let head = tag_spec(kk) + tag_spec(vk);
    let s = encode_table(kk, vk, ps) + rest;
    lemma_tag_len(kk);
    lemma_tag_len(vk);
    lemma_tags_known(kk);
    lemma_tags_known(vk);
    assert(s =~= head + be_bytes(ps.len() as int) + (encode_pairs(ps) + rest));
    lemma_be_bytes(ps.len() as int, head, encode_pairs(ps) + rest);
    assert(s.subrange(0, 3) =~= tag_spec(kk));
    assert(s.subrange(3, 6) =~= tag_spec(vk));
    assert(s =~= (head + be_bytes(ps.len() as int)) + encode_pairs(ps) + rest);
    assert(ps.take(0) =~= Seq::<(Value, Value)>::empty());
    lemma_entries_round_trip(kk, vk, ps, 0, head + be_bytes(ps.len() as int), rest);
}

proof fn lemma_entries_round_trip(
    kk: Kind,
    vk: Kind,
    ps: Seq<(Value, Value)>,
    i: int,
    base: Seq<u8>,
    rest: Seq<u8>,
)
    requires
        0 <= i <= ps.len(),
        table_entries(kk, vk, ps),
    ensures
        parse_entries(
            kk,
            vk,
            (ps.len() - i) as nat,
            base + encode_pairs(ps) + rest,
            (base.len() + encode_pairs(ps.take(i)).len()) as int,
            pairs_map(ps.take(i)),
        ) == Ok::<_, Error>(
            (Value::HashTable(pairs_map(ps)), (base.len() + encode_pairs(ps).len()) as int),
        ),
    decreases ps.len() - i,
{
    if i == ps.len() {
        assert(ps.take(i) =~= ps);
    } else {
        lemma_entry_step(kk, vk, ps, i, base, rest);
        lemma_entries_round_trip(kk, vk, ps, i + 1, base, rest);
    }
}

#[verifier::rlimit(40)]
proof fn lemma_entry_step(
    kk: Kind,
    vk: Kind,
    ps: Seq<(Value, Value)>,
    i: int,
    base: Seq<u8>,
    rest: Seq<u8>,
)
    requires
        0 <= i < ps.len(),
        table_entries(kk, vk, ps),
    ensures
        ({
            let s = base + encode_pairs(ps) + rest;
            let pos = (base.len() + encode_pairs(ps.take(i)).len()) as int;
            let mid = pos + encode_bare(ps[i].0).len();
            let end = mid + encode_bare(ps[i].1).len();
            &&& parse_bare(kk, s, pos) == Ok::<_, Error>((ps[i].0, mid))
            &&& advances(s, pos, mid)
            &&& parse_bare(vk, s, mid) == Ok::<_, Error>((ps[i].1, end))
            &&& advances(s, mid, end)
            &&& key_of(ps[i].0) is Some
            &&& pairs_map(ps.take(i)).insert(key_of(ps[i].0)->0, ps[i].1) == pairs_map(
                ps.take(i + 1),
            )
            &&& end == base.len() + encode_pairs(ps.take(i + 1)).len()
        }),
{
    let (key, value) = ps[i];
    assert(encodable(ps[i].0) && kind_of_value(ps[i].0) == kk);
    let pre = base + encode_pairs(ps.take(i));
    let after = encode_pairs(ps.skip(i + 1)) + rest;
    lemma_encode_pairs_split(ps, i + 1);
    assert(ps.take(i + 1).drop_last() =~= ps.take(i));
    assert(encode_pairs(ps.take(i + 1)) == encode_pairs(ps.take(i)) + encode_bare(key)
        + encode_bare(value));
    lemma_concat4(
        base,
        encode_pairs(ps.take(i)) + encode_bare(key) + encode_bare(value),
        encode_pairs(ps.skip(i + 1)),
        rest,
    );
    assert(base + encode_pairs(ps) + rest == pre + encode_bare(key) + encode_bare(value) + after)
        by {
        assert(base + encode_pairs(ps) + rest =~= pre + encode_bare(key) + encode_bare(value)
            + after);
    }
    lemma_pair_at(key, value, pre, after);
    lemma_pairs_map_step(ps, i);
}

proof fn lemma_concat4(a: Seq<u8>, b: Seq<u8>, c: Seq<u8>, d: Seq<u8>)
    ensures
        a + (b + c) + d == a + b + (c + d),
{
    assert(a + (b + c) + d =~= a + b + (c + d));
}

proof fn lemma_pair_at(key: Value, value: Value, pre: Seq<u8>, after: Seq<u8>)
    requires
        encodable(key),
        encodable(value),
    ensures
        ({
            let s = pre + encode_bare(key) + encode_bare(value) + after;
            let pos = pre.len() as int;
            let mid = pos + encode_bare(key).len();
            let end = mid + encode_bare(value).len();
            &&& parse_bare(kind_of_value(key), s, pos) == Ok::<_, Error>((key, mid))
            &&& advances(s, pos, mid)
            &&& parse_bare(kind_of_value(value), s, mid) == Ok::<_, Error>((value, end))
            &&& advances(s, mid, end)
        }),
{
    let s = pre + encode_bare(key) + encode_bare(value) + after;
    assert(s =~= pre + encode_bare(key) + (encode_bare(value) + after));
    lemma_round_trip_at(key, pre, encode_bare(value) + after);
    lemma_round_trip_at(value, pre + encode_bare(key), after);
    lemma_encoding_nonempty(key);
    lemma_encoding_nonempty(value);
}

proof fn lemma_pairs_map_step(ps: Seq<(Value, Value)>, i: int)
    requires
        0 <= i < ps.len(),
        key_of(ps[i].0) is Some,
    ensures
        pairs_map(ps.take(i)).insert(key_of(ps[i].0)->0, ps[i].1) == pairs_map(ps.take(i + 1)),
{
    assert(ps.take(i + 1).drop_last() =~= ps.take(i));
    assert(ps.take(i + 1).last() == ps[i]);
}

proof fn lemma_encode_pairs_split(ps: Seq<(Value, Value)>, j: int)
    requires
        0 <= j <= ps.len(),
    ensures
        encode_pairs(ps) == encode_pairs(ps.take(j)) + encode_pairs(ps.skip(j)),
    decreases ps.len(),
{
    if j == ps.len() {
        assert(ps.take(j) =~= ps);
        assert(ps.skip(j) =~= Seq::<(Value, Value)>::empty());
        assert(encode_pairs(ps) + Seq::<u8>::empty() =~= encode_pairs(ps));
    } else {
        let d = ps.drop_last();
        let e = encode_bare(ps.last().0) + encode_bare(ps.last().1);
        lemma_encode_pairs_split(d, j);
        assert(ps.take(j) =~= d.take(j));
        assert(ps.skip(j).drop_last() =~= d.skip(j));
        assert(ps.skip(j).last() == ps.last());
        assert(encode_pairs(ps) =~= encode_pairs(d) + e);
        assert(encode_pairs(ps.skip(j)) =~= encode_pairs(d.skip(j)) + e);
        assert(encode_pairs(d.take(j)) + encode_pairs(d.skip(j)) + e =~= encode_pairs(d.take(j))
            + (encode_pairs(d.skip(j)) + e));
    }
}

/// A field of an info list item: its name, then its value with the value's tag.
pub open spec fn field_bytes(f: (Value, Value)) -> Seq<u8> {
    let name = match f.0 {
        Value::Str(t) => str_bytes(t),
        _ => Seq::empty(),
    };
    name + tag_spec(kind_of_value(f.1)) + encode_bare(f.1)
}

/// The fields `fs`, one after the other.
pub open spec fn encode_fields(fs: Seq<(Value, Value)>) -> Seq<u8>
    decreases fs.len(),
{
    if fs.len() == 0 {
        Seq::empty()
    } else {
        encode_fields(fs.drop_last()) + field_bytes(fs.last())
    }
}

/// An info list item: its field count, then its fields.
pub open spec fn item_bytes(fs: Seq<(Value, Value)>) -> Seq<u8> {
    be_bytes(fs.len() as int) + encode_fields(fs)
}

/// The items `items`, one after the other.
pub open spec fn encode_items(items: Seq<Seq<(Value, Value)>>) -> Seq<u8>
    decreases items.len(),
{
    if items.len() == 0 {
        Seq::empty()
    } else {
        encode_items(items.drop_last()) + item_bytes(items.last())
    }
}

/// An info list without its own tag: its name, its item count, then its items.
pub open spec fn encode_info_list(name: Option<Seq<char>>, items: Seq<Seq<(Value, Value)>>) -> Seq<
    u8,
> {
    str_bytes(name) + be_bytes(items.len() as int) + encode_items(items)
}

/// The fields that an info list item may hold: encodable string names with encodable
/// values.
pub open spec fn item_fields(fs: Seq<(Value, Value)>) -> bool {
    &&& fs.len() < 0x1_0000_0000
    &&& forall|i: int|
        0 <= i < fs.len() ==> (#[trigger] fs[i].0 is Str) && encodable(fs[i].0) && encodable(
            fs[i].1,
        )
}

/// Decoding an info list that the encoder wrote gives its name back, and its items in
/// their order, each as the mapping that its fields stand for; it stops where the
/// encoding ends.
#[verifier::rlimit(100)]
pub proof fn lemma_info_list_round_trip(
    name: Option<Seq<char>>,
    items: Seq<Seq<(Value, Value)>>,
    rest: Seq<u8>,
)
    requires
        name matches Some(c) ==> encode_utf8(c).len() < 0x8000_0000,
        items.len() < 0x1_0000_0000,
        forall|i: int| 0 <= i < items.len() ==> item_fields(#[trigger] items[i]),
    ensures
        parse_bare(Kind::InfoList, encode_info_list(name, items) + rest, 0) == Ok::<_, Error>(
            (Value::InfoList(name, maps_of(items)), encode_info_list(name, items).len() as int),
        ),
{
    lemma_info_list_at(name, items, Seq::empty(), rest);
    assert(Seq::<u8>::empty() + encode_info_list(name, items) + rest =~= encode_info_list(
        name,
        items,
    ) + rest);
}

/// The info list law at any position: what precedes the encoding does not matter.
#[verifier::rlimit(100)]
pub proof fn lemma_info_list_at(
    name: Option<Seq<char>>,
    items: Seq<Seq<(Value, Value)>>,
    pre: Seq<u8>,
    rest: Seq<u8>,
)
    requires
        name matches Some(c) ==> encode_utf8(c).len() < 0x8000_0000,
        items.len() < 0x1_0000_0000,
        forall|i: int| 0 <= i < items.len() ==> item_fields(#[trigger] items[i]),
    ensures
        parse_bare(Kind::InfoList, pre + encode_info_list(name, items) + rest, pre.len() as int)
            == Ok::<_, Error>(
            (
                Value::InfoList(name, maps_of(items)),
                (pre.len() + encode_info_list(name, items).len()) as int,
            ),
        ),
{
    let head = str_bytes(name);
    let count = be_bytes(items.len() as int);
    let body = encode_items(items);
    let s = pre + encode_info_list(name, items) + rest;
    assert(s =~= pre + head + (count + body + rest));
    lemma_str_round_trip(name, pre, count + body + rest);
    assert(s =~= (pre + head) + count + (body + rest));
    lemma_be_bytes(items.len() as int, pre + head, body + rest);
    assert(s =~= (pre + head + count) + body + rest);
    assert(items.take(0) =~= Seq::<Seq<(Value, Value)>>::empty());
    assert(maps_of(items.take(0)) == Seq::<Map<Key, Value>>::empty());
    lemma_items_round_trip(name, items, 0, pre + head + count, rest);
}

/// Asking for a kind at a position whose tag names it decodes a value of that kind there.
pub proof fn lemma_expected_at(k: Kind, s: Seq<u8>, pos: int)
    requires
        0 <= pos,
        pos + 3 <= s.len(),
        s.subrange(pos, pos + 3) == tag_spec(k),
    ensures
        parse_expected(k, s, pos) == parse_bare(k, s, pos + 3),
{
}

/// A string of `n` characters takes at most four bytes a character in UTF-8.
pub proof fn lemma_encode_utf8_len(c: Seq<char>)
    ensures
        encode_utf8(c).len() <= 4 * c.len(),
    decreases c.len(),
{
    if c.len() > 0 {
        lemma_encode_utf8_len(c.drop_first());
    }
}

proof fn lemma_items_round_trip(
    name: Option<Seq<char>>,
    items: Seq<Seq<(Value, Value)>>,
    i: int,
    base: Seq<u8>,
    rest: Seq<u8>,
)
    requires
        0 <= i <= items.len(),
        forall|j: int| 0 <= j < items.len() ==> item_fields(#[trigger] items[j]),
    ensures
        parse_items(
            name,
            (items.len() - i) as nat,
            base + encode_items(items) + rest,
            (base.len() + encode_items(items.take(i)).len()) as int,
            maps_of(items.take(i)),
        ) == Ok::<_, Error>(
            (Value::InfoList(name, maps_of(items)), (base.len() + encode_items(items).len()) as int),
        ),
    decreases items.len() - i,
{
    if i == items.len() {
        assert(items.take(i) =~= items);
    } else {
        lemma_item_step(name, items, i, base, rest);
        lemma_items_round_trip(name, items, i + 1, base, rest);
    }
}

#[verifier::rlimit(40)]
proof fn lemma_item_step(
    name: Option<Seq<char>>,
    items: Seq<Seq<(Value, Value)>>,
    i: int,
    base: Seq<u8>,
    rest: Seq<u8>,
)
    requires
        0 <= i < items.len(),
        forall|j: int| 0 <= j < items.len() ==> item_fields(#[trigger] items[j]),
    ensures
        ({
            let s = base + encode_items(items) + rest;
            let p = (base.len() + encode_items(items.take(i)).len()) as int;
            let end = (base.len() + encode_items(items.take(i + 1)).len()) as int;
            &&& p + 4 <= s.len()
            &&& be_u32_at(s, p) == items[i].len()
            &&& parse_fields(items[i].len(), s, p + 4, Map::empty()) == Ok::<_, Error>(
                (Value::HashTable(pairs_map(items[i])), end),
            )
            &&& advances(s, p, end)
            &&& maps_of(items.take(i)).push(pairs_map(items[i])) == maps_of(items.take(i + 1))
        }),
{
    let fs = items[i];
    assert(item_fields(fs));
    let pre = base + encode_items(items.take(i));
    let after = encode_items(items.skip(i + 1)) + rest;
    lemma_encode_items_split(items, i + 1);
    assert(items.take(i + 1).drop_last() =~= items.take(i));
    assert(encode_items(items.take(i + 1)) == encode_items(items.take(i)) + item_bytes(fs));
    lemma_concat4(base, encode_items(items.take(i)) + item_bytes(fs), encode_items(items.skip(i + 1)), rest);
    assert(base + encode_items(items) + rest == pre + item_bytes(fs) + after) by {
        assert(base + encode_items(items) + rest =~= pre + item_bytes(fs) + after);
    }
    lemma_item_at(fs, pre, after);
    assert(items.take(i + 1).last() == fs);
}

proof fn lemma_encode_items_split(items: Seq<Seq<(Value, Value)>>, j: int)
    requires
        0 <= j <= items.len(),
    ensures
        encode_items(items) == encode_items(items.take(j)) + encode_items(items.skip(j)),
    decreases items.len(),
{
    if j == items.len() {
        assert(items.take(j) =~= items);
        assert(items.skip(j) =~= Seq::<Seq<(Value, Value)>>::empty());
        assert(encode_items(items) + Seq::<u8>::empty() =~= encode_items(items));
    } else {
        let d = items.drop_last();
        let e = item_bytes(items.last());
        lemma_encode_items_split(d, j);
        assert(items.take(j) =~= d.take(j));
        assert(items.skip(j).drop_last() =~= d.skip(j));
        assert(items.skip(j).last() == items.last());
        assert(encode_items(items.skip(j)) =~= encode_items(d.skip(j)) + e);
        assert(encode_items(d.take(j)) + encode_items(d.skip(j)) + e =~= encode_items(d.take(j))
            + (encode_items(d.skip(j)) + e));
    }
}

proof fn lemma_item_at(fs: Seq<(Value, Value)>, pre: Seq<u8>, after: Seq<u8>)
    requires
        item_fields(fs),
    ensures
        ({
            let s = pre + item_bytes(fs) + after;
            let p = pre.len() as int;
            &&& p + 4 <= s.len()
            &&& be_u32_at(s, p) == fs.len()
            &&& parse_fields(fs.len(), s, p + 4, Map::empty()) == Ok::<_, Error>(
                (Value::HashTable(pairs_map(fs)), p + item_bytes(fs).len()),
            )
        }),
{
    let s = pre + item_bytes(fs) + after;
    let count = be_bytes(fs.len() as int);
    assert(s =~= pre + count + (encode_fields(fs) + after));
    lemma_be_bytes(fs.len() as int, pre, encode_fields(fs) + after);
    assert(s =~= (pre + count) + encode_fields(fs) + after);
    assert(fs.take(0) =~= Seq::<(Value, Value)>::empty());
    lemma_fields_round_trip(fs, 0, pre + count, after);
}

proof fn lemma_fields_round_trip(fs: Seq<(Value, Value)>, i: int, base: Seq<u8>, rest: Seq<u8>)
    requires
        0 <= i <= fs.len(),
        item_fields(fs),
    ensures
        parse_fields(
            (fs.len() - i) as nat,
            base + encode_fields(fs) + rest,
            (base.len() + encode_fields(fs.take(i)).len()) as int,
            pairs_map(fs.take(i)),
        ) == Ok::<_, Error>(
            (Value::HashTable(pairs_map(fs)), (base.len() + encode_fields(fs).len()) as int),
        ),
    decreases fs.len() - i,
{
    if i == fs.len() {
        assert(fs.take(i) =~= fs);
    } else {
        lemma_field_step(fs, i, base, rest);
        lemma_fields_round_trip(fs, i + 1, base, rest);
    }
}

#[verifier::rlimit(100)]
proof fn lemma_field_step(fs: Seq<(Value, Value)>, i: int, base: Seq<u8>, rest: Seq<u8>)
    requires
        0 <= i < fs.len(),
        item_fields(fs),
    ensures
        ({
            let s = base + encode_fields(fs) + rest;
            let pos = (base.len() + encode_fields(fs.take(i)).len()) as int;
            let mid = pos + str_bytes(fs[i].0->Str_0).len();
            let end = (base.len() + encode_fields(fs.take(i + 1)).len()) as int;
            &&& parse_str(s, pos) == Ok::<_, Error>((fs[i].0->Str_0, mid))
            &&& advances(s, pos, mid)
            &&& parse_tagged(s, mid) == Ok::<_, Error>((fs[i].1, end))
            &&& advances(s, mid, end)
            &&& pairs_map(fs.take(i)).insert(Key::Str(fs[i].0->Str_0), fs[i].1) == pairs_map(
                fs.take(i + 1),
            )
        }),
{
    assert(fs[i].0 is Str && encodable(fs[i].0) && encodable(fs[i].1));
    let t = fs[i].0->Str_0;
    let value = fs[i].1;
    assert(fs[i].0 == Value::Str(t));
    lemma_fields_at(fs, i, base, rest);
    assert((fs[i].0, fs[i].1) == (Value::Str(t), value));
    lemma_field_at(t, value, base + encode_fields(fs.take(i)), encode_fields(fs.skip(i + 1)) + rest);
    lemma_pairs_map_step(fs, i);
}

proof fn lemma_fields_at(fs: Seq<(Value, Value)>, i: int, base: Seq<u8>, rest: Seq<u8>)
    requires
        0 <= i < fs.len(),
    ensures
        base + encode_fields(fs) + rest == (base + encode_fields(fs.take(i))) + field_bytes(
            (fs[i].0, fs[i].1),
        ) + (encode_fields(fs.skip(i + 1)) + rest),
        encode_fields(fs.take(i + 1)) == encode_fields(fs.take(i)) + field_bytes((fs[i].0, fs[i].1)),
{
    lemma_encode_fields_split(fs, i + 1);
    assert(fs.take(i + 1).drop_last() =~= fs.take(i));
    assert(fs.take(i + 1).last() == (fs[i].0, fs[i].1));
    let a = encode_fields(fs.take(i));
    let b = field_bytes((fs[i].0, fs[i].1));
    let c = encode_fields(fs.skip(i + 1));
    assert(base + (a + b + c) + rest =~= (base + a) + b + (c + rest));
}

proof fn lemma_encode_fields_split(fs: Seq<(Value, Value)>, j: int)
    requires
        0 <= j <= fs.len(),
    ensures
        encode_fields(fs) == encode_fields(fs.take(j)) + encode_fields(fs.skip(j)),
    decreases fs.len(),
{
    if j == fs.len() {
        assert(fs.take(j) =~= fs);
        assert(fs.skip(j) =~= Seq::<(Value, Value)>::empty());
        assert(encode_fields(fs) + Seq::<u8>::empty() =~= encode_fields(fs));
    } else {
        let d = fs.drop_last();
        let e = field_bytes(fs.last());
        lemma_encode_fields_split(d, j);
        assert(fs.take(j) =~= d.take(j));
        assert(fs.skip(j).drop_last() =~= d.skip(j));
        assert(fs.skip(j).last() == fs.last());
        assert(encode_fields(fs.skip(j)) =~= encode_fields(d.skip(j)) + e);
        assert(encode_fields(d.take(j)) + encode_fields(d.skip(j)) + e =~= encode_fields(d.take(j))
            + (encode_fields(d.skip(j)) + e));
    }
}

#[verifier::rlimit(100)]
proof fn lemma_field_at(t: Option<Seq<char>>, value: Value, pre: Seq<u8>, after: Seq<u8>)
    requires
        encodable(Value::Str(t)),
        encodable(value),
    ensures
        ({
            let s = pre + field_bytes((Value::Str(t), value)) + after;
            let pos = pre.len() as int;
            let mid = pos + str_bytes(t).len();
            let end = pos + field_bytes((Value::Str(t), value)).len();
            &&& parse_str(s, pos) == Ok::<_, Error>((t, mid))
            &&& advances(s, pos, mid)
            &&& parse_tagged(s, mid) == Ok::<_, Error>((value, end))
            &&& advances(s, mid, end)
        }),
{
    let k = kind_of_value(value);
    let tag = tag_spec(k);
    let s = pre + field_bytes((Value::Str(t), value)) + after;
    let head = pre + str_bytes(t);
    lemma_tag_len(k);
    lemma_str_round_trip(t, pre, tag + encode_bare(value) + after);
    assert(str_bytes(t).len() >= 4);
    assert(s =~= pre + str_bytes(t) + (tag + encode_bare(value) + after));
    lemma_round_trip_at(value, head + tag, after);
    assert(s =~= (head + tag) + encode_bare(value) + after);
    lemma_encoding_nonempty(value);
    assert(s.subrange(head.len() as int, head.len() + 3int) =~= tag);
    lemma_tagged_at(s, head.len() as int, k);
}

proof fn lemma_tagged_at(s: Seq<u8>, pos: int, k: Kind)
    requires
        0 <= pos,
        pos + 3 <= s.len(),
        s.subrange(pos, pos + 3) == tag_spec(k),
    ensures
        parse_tagged(s, pos) == parse_bare(k, s, pos + 3),
{
    lemma_tags_known(k);
}

/// Keys no two of which are equal.
pub open spec fn distinct_keys(ps: Seq<(Value, Value)>) -> bool {
    forall|i: int, j: int| 0 <= i < j < ps.len() ==> ps[i].0 != ps[j].0
}

/// `qs` lists the same entries as `ps`, in any order.
pub open spec fn same_entries(ps: Seq<(Value, Value)>, qs: Seq<(Value, Value)>) -> bool {
    &&& ps.len() == qs.len()
    &&& forall|i: int|
        0 <= i < ps.len() ==> exists|j: int| 0 <= j < qs.len() && #[trigger] qs[j] == #[trigger] ps[i]
    &&& forall|j: int|
        0 <= j < qs.len() ==> exists|i: int| 0 <= i < ps.len() && #[trigger] ps[i] == #[trigger] qs[j]
}

/// The order in which a table's entries are written does not matter: two encodings that
/// list the same entries, no two keys equal, in any two orders, decode to the same table.
pub proof fn lemma_table_order_blind(
    kk: Kind,
    vk: Kind,
    ps: Seq<(Value, Value)>,
    qs: Seq<(Value, Value)>,
    rest: Seq<u8>,
)
    requires
        ps.len() < 0x1_0000_0000,
        table_entries(kk, vk, ps),
        distinct_keys(ps),
        same_entries(ps, qs),
    ensures
        ({
            let r1 = parse_bare(Kind::HashTable, encode_table(kk, vk, ps) + rest, 0);
            let r2 = parse_bare(Kind::HashTable, encode_table(kk, vk, qs) + rest, 0);
            r1 is Ok && r2 is Ok && r1->Ok_0.0 == r2->Ok_0.0
        }),
{
    assert(table_entries(kk, vk, qs)) by {
        assert forall|j: int| 0 <= j < qs.len() implies encodable(#[trigger] qs[j].0) && kind_of_value(
            qs[j].0,
        ) == kk && encodable(qs[j].1) && kind_of_value(qs[j].1) == vk by {
            let i = choose|i: int| 0 <= i < ps.len() && ps[i] == qs[j];
        }
    }
    lemma_table_round_trip(kk, vk, ps, rest);
    lemma_table_round_trip(kk, vk, qs, rest);
    lemma_pairs_map_lookup(ps);
    lemma_pairs_map_lookup(qs);
    let mp = pairs_map(ps);
    let mq = pairs_map(qs);
    assert forall|k: Key| mp.contains_key(k) implies mq.contains_key(k) && mq[k] == mp[k] by {
        let i = choose|i: int| 0 <= i < ps.len() && key_of(#[trigger] ps[i].0) == Some(k) && mp[k]
            == ps[i].1;
        let j = choose|j: int| 0 <= j < qs.len() && qs[j] == ps[i];
        assert(key_of(qs[j].0) == Some(k));
        let j2 = choose|j2: int| 0 <= j2 < qs.len() && key_of(#[trigger] qs[j2].0) == Some(k) && mq[k]
            == qs[j2].1;
        let i2 = choose|i2: int| 0 <= i2 < ps.len() && ps[i2] == qs[j2];
        lemma_key_of_injective(ps[i].0, ps[i2].0);
        if i != i2 {
            assert(distinct_keys(ps));
            if i < i2 {
                assert(ps[i].0 != ps[i2].0);
            } else {
                assert(ps[i2].0 != ps[i].0);
            }
        }
    }
    assert forall|k: Key| mq.contains_key(k) implies mp.contains_key(k) by {
        let j = choose|j: int| 0 <= j < qs.len() && key_of(#[trigger] qs[j].0) == Some(k) && mq[k]
            == qs[j].1;
        let i = choose|i: int| 0 <= i < ps.len() && ps[i] == qs[j];
        assert(key_of(ps[i].0) == Some(k));
    }
    assert(mp =~= mq);
}

/// Every key of the mapping that entries stand for comes from an entry that holds its
/// value, and every entry whose key can be a key puts that key in the mapping.
proof fn lemma_pairs_map_lookup(ps: Seq<(Value, Value)>)
    ensures
        forall|k: Key|
            pairs_map(ps).contains_key(k) ==> exists|i: int|
                0 <= i < ps.len() && key_of(#[trigger] ps[i].0) == Some(k) && pairs_map(ps)[k]
                    == ps[i].1,
        forall|i: int|
            0 <= i < ps.len() && key_of(#[trigger] ps[i].0) is Some ==> pairs_map(
                ps,
            ).contains_key(key_of(ps[i].0)->0),
    decreases ps.len(),
{
    if ps.len() > 0 {
        let d = ps.drop_last();
        lemma_pairs_map_lookup(d);
        assert forall|k: Key| pairs_map(ps).contains_key(k) implies exists|i: int|
            0 <= i < ps.len() && key_of(#[trigger] ps[i].0) == Some(k) && pairs_map(ps)[k]
                == ps[i].1 by {
            if key_of(ps.last().0) == Some(k) {
                assert(key_of(ps[ps.len() - 1].0) == Some(k));
            } else {
                let i = choose|i: int|
                    0 <= i < d.len() && key_of(#[trigger] d[i].0) == Some(k) && pairs_map(d)[k]
                        == d[i].1;
                assert(d[i] == ps[i]);
            }
        }
        assert forall|i: int|
            0 <= i < ps.len() && key_of(#[trigger] ps[i].0) is Some implies pairs_map(
                ps,
            ).contains_key(key_of(ps[i].0)->0) by {
            if i < ps.len() - 1 {
                assert(d[i] == ps[i]);
            }
        }
    }
}

/// An info list has one mapping per item.
pub proof fn lemma_maps_of_len(items: Seq<Seq<(Value, Value)>>)
    ensures
        maps_of(items).len() == items.len(),
    decreases items.len(),
{
    if items.len() > 0 {
        lemma_maps_of_len(items.drop_last());
    }
}

} // verus!
