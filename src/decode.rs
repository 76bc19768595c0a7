use vstd::prelude::*;
use vstd::utf8::{
    decode_utf8, encode_utf8, encode_utf8_decode_utf8, encode_utf8_valid_utf8, valid_utf8,
};
use crate::bytes::{
    all_digits, decimal_bytes, is_digit, lemma_decimal_bytes, lemma_decimal_len, lemma_pow10_20,
    be_u32_at, copy_range, parse_i64, parse_i64_spec, parse_u64, parse_u64_spec, read_i32_be,
    read_i8, read_u32_be, signed32, signed8, utf8_string,
};
use crate::error::Error;
use crate::object::{
    entries_map, entries_wf, key_of, kind_of_tag, lemma_entries_map, lemma_entries_map_update,
    tables_of, tag_spec, values_of, Buffer, HashTable, Info, InfoList, Key, Kind,
    Object, Pointer, Str, Time, Value,
};

verus! {

/// What a decoder returns: the value and the position just past it.
pub type Parsed = Result<(Value, int), Error>;

/// The three bytes at `pos`, as an array.
pub open spec fn tag_at(s: Seq<u8>, pos: int) -> [u8; 3] {
    [s[pos], s[pos + 1], s[pos + 2]]
}

/// A decoder that returned a value moved forward and stayed inside the input.
pub open spec fn advances(s: Seq<u8>, pos: int, end: int) -> bool {
    pos < end <= s.len()
}

/// Bytes behind a one-byte length prefix.
pub open spec fn parse_short(s: Seq<u8>, pos: int) -> Result<(Seq<u8>, int), Error> {
    if pos + 1 > s.len() {
        Err(Error::UnexpectedEof)
    } else {
        let end = pos + 1 + s[pos];
        if end > s.len() {
            Err(Error::UnexpectedEof)
        } else {
            Ok((s.subrange(pos + 1, end), end))
        }
    }
}

/// Bytes behind a four-byte signed length; -1 is null, any other negative length is refused.
pub open spec fn parse_buffer(s: Seq<u8>, pos: int) -> Result<(Option<Seq<u8>>, int), Error> {
    if pos + 4 > s.len() {
        Err(Error::UnexpectedEof)
    } else {
        let n = signed32(be_u32_at(s, pos));
        if n == -1 {
            Ok((None, pos + 4))
        } else if n < 0 {
            Err(Error::Decoding)
        } else if pos + 4 + n > s.len() {
            Err(Error::UnexpectedEof)
        } else {
            Ok((Some(s.subrange(pos + 4, pos + 4 + n)), pos + 4 + n))
        }
    }
}

/// A buffer whose bytes must be UTF-8.
pub open spec fn parse_str(s: Seq<u8>, pos: int) -> Result<(Option<Seq<char>>, int), Error> {
    match parse_buffer(s, pos) {
        Err(e) => Err(e),
        Ok((None, end)) => Ok((None, end)),
        Ok((Some(b), end)) => if valid_utf8(b) {
            Ok((Some(decode_utf8(b)), end))
        } else {
            Err(Error::Decoding)
        },
    }
}

/// The kinds whose values hold no other objects.
pub open spec fn is_scalar(k: Kind) -> bool {
    !(k is HashTable || k is InfoList || k is Array)
}

/// Decodes a value of a kind that holds no other objects, its tag already read.
pub open spec fn parse_scalar(k: Kind, s: Seq<u8>, pos: int) -> Parsed {
    match k {
        Kind::Char => if pos + 1 > s.len() {
            Err(Error::UnexpectedEof)
        } else {
            Ok((Value::Char(signed8(s[pos]) as i8), pos + 1))
        },
        Kind::Int => if pos + 4 > s.len() {
            Err(Error::UnexpectedEof)
        } else {
            Ok((Value::Int(signed32(be_u32_at(s, pos)) as i32), pos + 4))
        },
        Kind::Long => match parse_short(s, pos) {
            Err(e) => Err(e),
            Ok((b, end)) => match parse_i64_spec(b) {
                Some(n) => Ok((Value::Long(n), end)),
                None => Err(Error::Decoding),
            },
        },
        Kind::Str => match parse_str(s, pos) {
            Err(e) => Err(e),
            Ok((t, end)) => Ok((Value::Str(t), end)),
        },
        Kind::Buffer => match parse_buffer(s, pos) {
            Err(e) => Err(e),
            Ok((b, end)) => Ok((Value::Buffer(b), end)),
        },
        Kind::Pointer => match parse_short(s, pos) {
            Err(e) => Err(e),
            Ok((b, end)) => if valid_utf8(b) {
                Ok((Value::Pointer(decode_utf8(b)), end))
            } else {
                Err(Error::Decoding)
            },
        },
        Kind::Time => match parse_short(s, pos) {
            Err(e) => Err(e),
            Ok((b, end)) => match parse_u64_spec(b) {
                Some(n) => Ok((Value::Time(n), end)),
                None => Err(Error::Decoding),
            },
        },
        Kind::Info => match parse_str(s, pos) {
            Err(e) => Err(e),
            Ok((name, mid)) => match parse_str(s, mid) {
                Err(e) => Err(e),
                Ok((value, end)) => Ok((Value::Info(name, value), end)),
            },
        },
        _ => Err(Error::Decoding),
    }
}

/// Decodes a value of kind `k` whose tag was already read.
pub open spec fn parse_bare(k: Kind, s: Seq<u8>, pos: int) -> Parsed
    decreases s.len() - pos, 1int,
{
    match k {
        Kind::HashTable => parse_table(s, pos),
        Kind::Array => parse_array(s, pos),
        Kind::InfoList => parse_info_list(s, pos),
        _ => parse_scalar(k, s, pos),
    }
}

/// Decodes a tag and the value of the kind it names.
pub open spec fn parse_tagged(s: Seq<u8>, pos: int) -> Parsed
    decreases s.len() - pos, 1int,
{
    if pos + 3 > s.len() {
        Err(Error::UnexpectedEof)
    } else {
        match kind_of_tag(s.subrange(pos, pos + 3)) {
            None => Err(Error::UnknownTag(tag_at(s, pos))),
            Some(k) => parse_bare(k, s, pos + 3),
        }
    }
}

/// A table: key tag, value tag, four-byte count, then that many bare keys and values.
pub open spec fn parse_table(s: Seq<u8>, pos: int) -> Parsed
    decreases s.len() - pos, 0int,
{
    if pos + 6 > s.len() {
        Err(Error::UnexpectedEof)
    } else {
        match kind_of_tag(s.subrange(pos, pos + 3)) {
            None => Err(Error::UnknownTag(tag_at(s, pos))),
            Some(kk) => match kind_of_tag(s.subrange(pos + 3, pos + 6)) {
                None => Err(Error::UnknownTag(tag_at(s, pos + 3))),
                Some(vk) => if pos + 10 > s.len() {
                    Err(Error::UnexpectedEof)
                } else {
                    parse_entries(kk, vk, be_u32_at(s, pos + 6) as nat, s, pos + 10, Map::empty())
                },
            },
        }
    }
}

/// The `n` remaining entries of a table, put into `acc` one after the other.
pub open spec fn parse_entries(
    kk: Kind,
    vk: Kind,
    n: nat,
    s: Seq<u8>,
    pos: int,
    acc: Map<Key, Value>,
) -> Parsed
    decreases s.len() - pos, 2int, n,
{
    if n == 0 {
        Ok((Value::HashTable(acc), pos))
    } else {
        match parse_bare(kk, s, pos) {
            Err(e) => Err(e),
            Ok((key, mid)) => if !advances(s, pos, mid) {
                Err(Error::Decoding)
            } else {
                match parse_bare(vk, s, mid) {
                    Err(e) => Err(e),
                    Ok((value, end)) => if !advances(s, mid, end) {
                        Err(Error::Decoding)
                    } else {
                        match key_of(key) {
                            Some(k) => parse_entries(
                                kk,
                                vk,
                                (n - 1) as nat,
                                s,
                                end,
                                acc.insert(k, value),
                            ),
                            None => Err(Error::UnexpectedType),
                        }
                    },
                }
            },
        }
    }
}

/// An array: element tag, four-byte count, then that many bare elements.
pub open spec fn parse_array(s: Seq<u8>, pos: int) -> Parsed
    decreases s.len() - pos, 0int,
{
    if pos + 3 > s.len() {
        Err(Error::UnexpectedEof)
    } else {
        match kind_of_tag(s.subrange(pos, pos + 3)) {
            None => Err(Error::UnknownTag(tag_at(s, pos))),
            Some(k) => if pos + 7 > s.len() {
                Err(Error::UnexpectedEof)
            } else {
                parse_elems(k, be_u32_at(s, pos + 3) as nat, s, pos + 7, Seq::empty())
            },
        }
    }
}

/// The `n` remaining elements of an array, appended to `acc`.
pub open spec fn parse_elems(k: Kind, n: nat, s: Seq<u8>, pos: int, acc: Seq<Value>) -> Parsed
    decreases s.len() - pos, 2int, n,
{
    if n == 0 {
        Ok((Value::Array(acc), pos))
    } else {
        match parse_bare(k, s, pos) {
            Err(e) => Err(e),
            Ok((v, end)) => if !advances(s, pos, end) {
                Err(Error::Decoding)
            } else {
                parse_elems(k, (n - 1) as nat, s, end, acc.push(v))
            },
        }
    }
}

/// An info list: a bare name, a four-byte item count, then the items.
pub open spec fn parse_info_list(s: Seq<u8>, pos: int) -> Parsed
    decreases s.len() - pos, 0int,
{
    match parse_str(s, pos) {
        Err(e) => Err(e),
        Ok((name, mid)) => if mid + 4 > s.len() {
            Err(Error::UnexpectedEof)
        } else {
            parse_items(name, be_u32_at(s, mid) as nat, s, mid + 4, Seq::empty())
        },
    }
}

/// The `n` remaining items of an info list, each a four-byte field count and its fields.
pub open spec fn parse_items(
    name: Option<Seq<char>>,
    n: nat,
    s: Seq<u8>,
    pos: int,
    acc: Seq<Map<Key, Value>>,
) -> Parsed
    decreases s.len() - pos, 2int, n,
{
    if n == 0 {
        Ok((Value::InfoList(name, acc), pos))
    } else if pos + 4 > s.len() {
        Err(Error::UnexpectedEof)
    } else {
        match parse_fields(be_u32_at(s, pos) as nat, s, pos + 4, Map::empty()) {
            Err(e) => Err(e),
            Ok((item, end)) => if !advances(s, pos, end) || !(item is HashTable) {
                Err(Error::Decoding)
            } else {
                parse_items(name, (n - 1) as nat, s, end, acc.push(item->HashTable_0))
            },
        }
    }
}

/// The `n` remaining fields of an item: each a bare string name and a tagged value.
pub open spec fn parse_fields(n: nat, s: Seq<u8>, pos: int, acc: Map<Key, Value>) -> Parsed
    decreases s.len() - pos, 2int, n,
{
    if n == 0 {
        Ok((Value::HashTable(acc), pos))
    } else {
        match parse_str(s, pos) {
            Err(e) => Err(e),
            Ok((name, mid)) => if !advances(s, pos, mid) {
                Err(Error::Decoding)
            } else {
                match parse_tagged(s, mid) {
                    Err(e) => Err(e),
                    Ok((value, end)) => if !advances(s, mid, end) {
                        Err(Error::Decoding)
                    } else {
                        parse_fields(
                            (n - 1) as nat,
                            s,
                            end,
                            acc.insert(Key::Str(name), value),
                        )
                    },
                }
            },
        }
    }
}

/// Decodes a tag, refusing any kind but `k`, then the value.
pub open spec fn parse_expected(k: Kind, s: Seq<u8>, pos: int) -> Parsed {
    if pos + 3 > s.len() {
        Err(Error::UnexpectedEof)
    } else if s.subrange(pos, pos + 3) != tag_spec(k) {
        Err(Error::UnexpectedType)
    } else {
        parse_bare(k, s, pos + 3)
    }
}

/// The outcome of an executable decoder, read through the views.
pub open spec fn obj_parsed(r: Result<(Object, usize), Error>) -> Parsed {
    match r {
        Ok((o, end)) => Ok((o@, end as int)),
        Err(e) => Err(e),
    }
}

/// Whether `n` more bytes stand at `pos`.
fn room(data: &[u8], pos: usize, n: usize) -> (r: bool)
    requires
        pos <= data@.len(),
    ensures
        r == (pos + n <= data@.len()),
{
    data.len() - pos >= n
}

/// The end of the bytes behind a one-byte length prefix at `pos`.
fn decode_short(data: &[u8], pos: usize) -> (r: Result<usize, Error>)
    requires
        pos <= data@.len(),
    ensures
        match r {
            Ok(end) => pos + 1 <= end <= data@.len() && parse_short(data@, pos as int) == Ok::<
                _,
                Error,
            >(
                (data@.subrange(pos + 1, end as int), end as int),
            ),
            Err(e) => parse_short(data@, pos as int) == Err::<(Seq<u8>, int), _>(e),
        },
{
    if !room(data, pos, 1) {
        return Err(Error::UnexpectedEof);
    }
    let n = data[pos] as usize;
    if !room(data, pos + 1, n) {
        return Err(Error::UnexpectedEof);
    }
    Ok(pos + 1 + n)
}

/// Puts `key` and `value` into the entries of a table, overwriting the entry with an
/// equal key if there is one.
fn table_insert(entries: &mut Vec<(Object, Object)>, key: Object, value: Object)
    requires
        entries_wf(old(entries)@),
        key_of(key@) is Some,
    ensures
        entries_wf(final(entries)@),
        entries_map(final(entries)@) == entries_map(old(entries)@).insert(
            key_of(key@)->0,
            value@,
        ),
{
    let mut j: usize = 0;
    while j < entries.len()
        invariant
            j <= entries@.len(),
            entries@ == old(entries)@,
            entries_wf(old(entries)@),
            key_of(key@) is Some,
            forall|i: int| 0 <= i < j ==> #[trigger] entries@[i].0@ != key@,
        decreases entries@.len() - j,
    {
        if key.same_key(&entries[j].0) {
            let ghost before = entries@;
            let ghost e = (key, value);
            entries.set(j, (key, value));
            proof {
                lemma_entries_map_update(before, j as int, e);
                assert(entries@ == before.update(j as int, e));
            }
            return;
        }
        j = j + 1;
    }
    let ghost before = entries@;
    entries.push((key, value));
    assert(entries@.drop_last() =~= before);
    assert(entries_wf(entries@)) by {
        assert forall|i: int| 0 <= i < entries@.len() implies (key_of(
            #[trigger] entries@[i].0@,
        ) is Some) by {
            if i < before.len() {
                assert(entries@[i] == before[i]);
            }
        }
        assert forall|a: int, b: int| 0 <= a < b < entries@.len() implies entries@[a].0@
            != entries@[b].0@ by {
            assert(entries@[a] == before[a]);
            if b < before.len() {
                assert(entries@[b] == before[b]);
            }
        }
    }
}

impl Buffer {
    /// Decodes a buffer at `pos`, its tag already read.
    pub fn decode_bare(data: &[u8], pos: usize) -> (r: Result<(Buffer, usize), Error>)
        ensures
            match r {
                Ok((b, end)) => parse_buffer(data@, pos as int) == Ok::<_, Error>((b@, end as int))
                    && advances(data@, pos as int, end as int),
                Err(e) => parse_buffer(data@, pos as int) == Err::<(Option<Seq<u8>>, int), _>(e),
            },
    {
        if pos > data.len() || !room(data, pos, 4) {
            return Err(Error::UnexpectedEof);
        }
        let n = read_i32_be(data, pos);
        if n == -1 {
            return Ok((Buffer(None), pos + 4));
        }
        if n < 0 {
            return Err(Error::Decoding);
        }
        if !room(data, pos + 4, n as usize) {
            return Err(Error::UnexpectedEof);
        }
        let end = pos + 4 + n as usize;
        Ok((Buffer(Some(copy_range(data, pos + 4, end))), end))
    }
}

impl Str {
    /// Decodes a string at `pos`, its tag already read.
    pub fn decode_bare(data: &[u8], pos: usize) -> (r: Result<(Str, usize), Error>)
        ensures
            match r {
                Ok((t, end)) => parse_str(data@, pos as int) == Ok::<_, Error>((t@, end as int))
                    && advances(data@, pos as int, end as int),
                Err(e) => parse_str(data@, pos as int) == Err::<(Option<Seq<char>>, int), _>(e),
            },
    {
        let (b, end) = match Buffer::decode_bare(data, pos) {
            Ok(x) => x,
            Err(e) => return Err(e),
        };
        match b.0 {
            None => Ok((Str::null(), end)),
            Some(bytes) => match utf8_string(bytes) {
                Some(text) => Ok((Str::new(Some(text)), end)),
                None => Err(Error::Decoding),
            },
        }
    }

    /// Decodes a string at `pos`, tag first.
    pub fn decode(data: &[u8], pos: usize) -> (r: Result<(Str, usize), Error>)
        ensures
            match r {
                Ok((t, end)) => parse_expected(Kind::Str, data@, pos as int) == Ok::<_, Error>(
                    (Value::Str(t@), end as int),
                ),
                Err(e) => parse_expected(Kind::Str, data@, pos as int) == Err::<(Value, int), _>(e),
            },
    {
        if pos > data.len() || !room(data, pos, 3) {
            return Err(Error::UnexpectedEof);
        }
        if !is_tag(data, pos, Kind::Str) {
            return Err(Error::UnexpectedType);
        }
        match Str::decode_bare(data, pos + 3) {
            Ok((t, end)) => Ok((t, end)),
            Err(e) => Err(e),
        }
    }
}

/// Whether the three bytes at `pos` are the tag of `k`.
fn is_tag(data: &[u8], pos: usize, k: Kind) -> (r: bool)
    requires
        pos + 3 <= data@.len(),
    ensures
        r == (data@.subrange(pos as int, pos + 3) == tag_spec(k)),
{
    let t = k.tag();
    let r = data[pos] == t[0] && data[pos + 1] == t[1] && data[pos + 2] == t[2];
    assert(r ==> data@.subrange(pos as int, pos + 3) =~= t@);
    r
}

/// The tag at `pos`.
fn read_tag(data: &[u8], pos: usize) -> (r: [u8; 3])
    requires
        pos + 3 <= data@.len(),
    ensures
        r@ == data@.subrange(pos as int, pos + 3),
        r == tag_at(data@, pos as int),
{
    let r = [data[pos], data[pos + 1], data[pos + 2]];
    assert(r@ =~= data@.subrange(pos as int, pos + 3));
    r
}

impl Info {
    /// Decodes an info, two bare strings, at `pos`.
    pub fn decode_bare(data: &[u8], pos: usize) -> (r: Result<(Info, usize), Error>)
        ensures
            match r {
                Ok((i, end)) => parse_scalar(Kind::Info, data@, pos as int) == Ok::<_, Error>(
                    (Value::Info(i.name@, i.value@), end as int),
                ) && advances(data@, pos as int, end as int),
                Err(e) => parse_scalar(Kind::Info, data@, pos as int) == Err::<(Value, int), _>(e),
            },
    {
        let (name, mid) = match Str::decode_bare(data, pos) {
            Ok(x) => x,
            Err(e) => return Err(e),
        };
        let (value, end) = match Str::decode_bare(data, mid) {
            Ok(x) => x,
            Err(e) => return Err(e),
        };
        Ok((Info { name, value }, end))
    }
}

/// Decodes a value of a kind that holds no other objects.
fn decode_scalar(k: Kind, data: &[u8], pos: usize) -> (r: Result<(Object, usize), Error>)
    ensures
        obj_parsed(r) == parse_scalar(k, data@, pos as int),
        r is Ok ==> advances(data@, pos as int, r->Ok_0.1 as int),
{
    if pos > data.len() {
        return match k {
            Kind::HashTable | Kind::InfoList | Kind::Array => Err(Error::Decoding),
            _ => Err(Error::UnexpectedEof),
        };
    }
    match k {
        Kind::Char => {
            if !room(data, pos, 1) {
                return Err(Error::UnexpectedEof);
            }
            Ok((Object::Char(read_i8(data, pos)), pos + 1))
        },
        Kind::Int => {
            if !room(data, pos, 4) {
                return Err(Error::UnexpectedEof);
            }
            Ok((Object::Int(read_i32_be(data, pos)), pos + 4))
        },
        Kind::Long => {
            let end = match decode_short(data, pos) {
                Ok(end) => end,
                Err(e) => return Err(e),
            };
            match parse_i64(data, pos + 1, end) {
                Some(n) => Ok((Object::Long(n), end)),
                None => Err(Error::Decoding),
            }
        },
        Kind::Str => match Str::decode_bare(data, pos) {
            Ok((t, end)) => Ok((Object::Str(t), end)),
            Err(e) => Err(e),
        },
        Kind::Buffer => match Buffer::decode_bare(data, pos) {
            Ok((b, end)) => Ok((Object::Buffer(b), end)),
            Err(e) => Err(e),
        },
        Kind::Pointer => {
            let end = match decode_short(data, pos) {
                Ok(end) => end,
                Err(e) => return Err(e),
            };
            match utf8_string(copy_range(data, pos + 1, end)) {
                Some(text) => Ok((Object::Pointer(Pointer(text)), end)),
                None => Err(Error::Decoding),
            }
        },
        Kind::Time => {
            let end = match decode_short(data, pos) {
                Ok(end) => end,
                Err(e) => return Err(e),
            };
            match parse_u64(data, pos + 1, end) {
                Some(n) => Ok((Object::Time(Time(n)), end)),
                None => Err(Error::Decoding),
            }
        },
        Kind::Info => match Info::decode_bare(data, pos) {
            Ok((i, end)) => Ok((Object::Info(i), end)),
            Err(e) => Err(e),
        },
        _ => Err(Error::Decoding),
    }
}

impl Object {
    /// Decodes a value of kind `k` at `pos`, its tag already read.
    pub fn decode_bare(k: Kind, data: &[u8], pos: usize) -> (r: Result<(Object, usize), Error>)
        ensures
            obj_parsed(r) == parse_bare(k, data@, pos as int),
            r is Ok ==> advances(data@, pos as int, r->Ok_0.1 as int),
        decreases data@.len() - pos, 1int,
    {
        match k {
            Kind::HashTable => match HashTable::decode_bare(data, pos) {
                Ok((t, end)) => Ok((Object::HashTable(t), end)),
                Err(e) => Err(e),
            },
            Kind::Array => match decode_array(data, pos) {
                Ok((a, end)) => Ok((Object::Array(a), end)),
                Err(e) => Err(e),
            },
            Kind::InfoList => match InfoList::decode_bare(data, pos) {
                Ok((l, end)) => Ok((Object::InfoList(l), end)),
                Err(e) => Err(e),
            },
            _ => decode_scalar(k, data, pos),
        }
    }

    /// Decodes a tag at `pos` and then a value of the kind that it names.
    pub fn decode(data: &[u8], pos: usize) -> (r: Result<(Object, usize), Error>)
        ensures
            obj_parsed(r) == parse_tagged(data@, pos as int),
            r is Ok ==> advances(data@, pos as int, r->Ok_0.1 as int),
        decreases data@.len() - pos, 1int,
    {
        if pos > data.len() || !room(data, pos, 3) {
            return Err(Error::UnexpectedEof);
        }
        let tag = read_tag(data, pos);
        match Kind::from_tag(tag) {
            None => Err(Error::UnknownTag(tag)),
            Some(k) => Object::decode_bare(k, data, pos + 3),
        }
    }

    /// Decodes a tag at `pos`, refusing any kind but `k`, and then the value.
    pub fn decode_expected(k: Kind, data: &[u8], pos: usize) -> (r: Result<(Object, usize), Error>)
        ensures
            obj_parsed(r) == parse_expected(k, data@, pos as int),
    {
        if pos > data.len() || !room(data, pos, 3) {
            return Err(Error::UnexpectedEof);
        }
        if !is_tag(data, pos, k) {
            return Err(Error::UnexpectedType);
        }
        Object::decode_bare(k, data, pos + 3)
    }
}

impl HashTable {
    /// Decodes a table at `pos`, its tag already read.
    pub fn decode_bare(data: &[u8], pos: usize) -> (r: Result<(HashTable, usize), Error>)
        ensures
            match r {
                Ok((t, end)) => parse_table(data@, pos as int) == Ok::<_, Error>(
                    (Value::HashTable(t@), end as int),
                ) && advances(data@, pos as int, end as int),
                Err(e) => parse_table(data@, pos as int) == Err::<(Value, int), _>(e),
            },
        decreases data@.len() - pos, 0int,
    {
        if pos > data.len() || !room(data, pos, 6) {
            return Err(Error::UnexpectedEof);
        }
        let key_tag = read_tag(data, pos);
        let value_tag = read_tag(data, pos + 3);
        let kk = match Kind::from_tag(key_tag) {
            Some(k) => k,
            None => return Err(Error::UnknownTag(key_tag)),
        };
        let vk = match Kind::from_tag(value_tag) {
            Some(k) => k,
            None => return Err(Error::UnknownTag(value_tag)),
        };
        if !room(data, pos, 10) {
            return Err(Error::UnexpectedEof);
        }
        let n = read_u32_be(data, pos + 6);
        let mut entries: Vec<(Object, Object)> = Vec::new();
        let mut p: usize = pos + 10;
        let mut i: u32 = 0;
        while i < n
            invariant
                pos + 10 <= p <= data@.len(),
                i <= n,
                entries_wf(entries@),
                parse_table(data@, pos as int) == parse_entries(
                    kk,
                    vk,
                    (n - i) as nat,
                    data@,
                    p as int,
                    entries_map(entries@),
                ),
            decreases n - i,
        {
            let (key, mid) = match Object::decode_bare(kk, data, p) {
                Ok(x) => x,
                Err(e) => return Err(e),
            };
            let (value, end) = match Object::decode_bare(vk, data, mid) {
                Ok(x) => x,
                Err(e) => return Err(e),
            };
            if !key.is_key() {
                return Err(Error::UnexpectedType);
            }
            table_insert(&mut entries, key, value);
            p = end;
            i = i + 1;
        }
        Ok((HashTable::from_entries(entries), p))
    }
}

/// Decodes an array at `pos`, its tag already read.
fn decode_array(data: &[u8], pos: usize) -> (r: Result<(Vec<Object>, usize), Error>)
    ensures
        match r {
            Ok((a, end)) => parse_array(data@, pos as int) == Ok::<_, Error>(
                (Value::Array(values_of(a@)), end as int),
            ) && advances(data@, pos as int, end as int),
            Err(e) => parse_array(data@, pos as int) == Err::<(Value, int), _>(e),
        },
    decreases data@.len() - pos, 0int,
{
    if pos > data.len() || !room(data, pos, 3) {
        return Err(Error::UnexpectedEof);
    }
    let tag = read_tag(data, pos);
    let k = match Kind::from_tag(tag) {
        Some(k) => k,
        None => return Err(Error::UnknownTag(tag)),
    };
    if !room(data, pos, 7) {
        return Err(Error::UnexpectedEof);
    }
    let n = read_u32_be(data, pos + 3);
    let mut elems: Vec<Object> = Vec::new();
    let mut p: usize = pos + 7;
    let mut i: u32 = 0;
    while i < n
        invariant
            pos + 7 <= p <= data@.len(),
            i <= n,
            parse_array(data@, pos as int) == parse_elems(
                k,
                (n - i) as nat,
                data@,
                p as int,
                values_of(elems@),
            ),
        decreases n - i,
    {
        let (v, end) = match Object::decode_bare(k, data, p) {
            Ok(x) => x,
            Err(e) => return Err(e),
        };
        let ghost before = elems@;
        elems.push(v);
        assert(elems@.drop_last() =~= before);
        p = end;
        i = i + 1;
    }
    Ok((elems, p))
}

/// Decodes the `n` fields of an info list item at `pos`.
fn decode_fields(n: u32, data: &[u8], pos: usize) -> (r: Result<(HashTable, usize), Error>)
    requires
        pos <= data@.len(),
    ensures
        match r {
            Ok((t, end)) => parse_fields(n as nat, data@, pos as int, Map::empty()) == Ok::<
                _,
                Error,
            >((Value::HashTable(t@), end as int)) && pos <= end <= data@.len(),
            Err(e) => parse_fields(n as nat, data@, pos as int, Map::empty()) == Err::<
                (Value, int),
                _,
            >(e),
        },
    decreases data@.len() - pos, 0int,
{
    let mut entries: Vec<(Object, Object)> = Vec::new();
    let mut p: usize = pos;
    let mut i: u32 = 0;
    while i < n
        invariant
            pos <= p <= data@.len(),
            i <= n,
            entries_wf(entries@),
            parse_fields(n as nat, data@, pos as int, Map::empty()) == parse_fields(
                (n - i) as nat,
                data@,
                p as int,
                entries_map(entries@),
            ),
        decreases n - i,
    {
        let (name, mid) = match Str::decode_bare(data, p) {
            Ok(x) => x,
            Err(e) => return Err(e),
        };
        let (value, end) = match Object::decode(data, mid) {
            Ok(x) => x,
            Err(e) => return Err(e),
        };
        table_insert(&mut entries, Object::Str(name), value);
        p = end;
        i = i + 1;
    }
    Ok((HashTable::from_entries(entries), p))
}

impl InfoList {
    /// Decodes an info list at `pos`, its tag already read.
    pub fn decode_bare(data: &[u8], pos: usize) -> (r: Result<(InfoList, usize), Error>)
        ensures
            match r {
                Ok((l, end)) => parse_info_list(data@, pos as int) == Ok::<_, Error>(
                    (Value::InfoList(l.name@, tables_of(l.items@)), end as int),
                ) && advances(data@, pos as int, end as int),
                Err(e) => parse_info_list(data@, pos as int) == Err::<(Value, int), _>(e),
            },
        decreases data@.len() - pos, 0int,
    {
        let (name, mid) = match Str::decode_bare(data, pos) {
            Ok(x) => x,
            Err(e) => return Err(e),
        };
        if data.len() - mid < 4 {
            return Err(Error::UnexpectedEof);
        }
        let n = read_u32_be(data, mid);
        let mut items: Vec<HashTable> = Vec::new();
        let mut p: usize = mid + 4;
        let mut i: u32 = 0;
        while i < n
            invariant
                pos < mid,
                mid + 4 <= p <= data@.len(),
                i <= n,
                parse_info_list(data@, pos as int) == parse_items(
                    name@,
                    (n - i) as nat,
                    data@,
                    p as int,
                    tables_of(items@),
                ),
            decreases n - i,
        {
            if data.len() - p < 4 {
                return Err(Error::UnexpectedEof);
            }
            let m = read_u32_be(data, p);
            let (item, end) = match decode_fields(m, data, p + 4) {
                Ok(x) => x,
                Err(e) => return Err(e),
            };
            let ghost before = items@;
            items.push(item);
            assert(items@.drop_last() =~= before);
            p = end;
            i = i + 1;
        }
        Ok((InfoList { name, items }, p))
    }

    /// Decodes an info list at `pos`, tag first.
    pub fn decode(data: &[u8], pos: usize) -> (r: Result<(InfoList, usize), Error>)
        ensures
            match r {
                Ok((l, end)) => parse_expected(Kind::InfoList, data@, pos as int) == Ok::<
                    _,
                    Error,
                >((Value::InfoList(l.name@, tables_of(l.items@)), end as int)),
                Err(e) => parse_expected(Kind::InfoList, data@, pos as int) == Err::<
                    (Value, int),
                    _,
                >(e),
            },
    {
        if pos > data.len() || !room(data, pos, 3) {
            return Err(Error::UnexpectedEof);
        }
        if !is_tag(data, pos, Kind::InfoList) {
            return Err(Error::UnexpectedType);
        }
        InfoList::decode_bare(data, pos + 3)
    }
}

} // verus!

verus! {

/// A tag that names no kind is refused as such, wherever a tagged value is read.
pub proof fn lemma_unknown_tag(s: Seq<u8>, pos: int)
    requires
        0 <= pos,
        pos + 3 <= s.len(),
        kind_of_tag(s.subrange(pos, pos + 3)) is None,
    ensures
        parse_tagged(s, pos) == Err::<(Value, int), _>(Error::UnknownTag(tag_at(s, pos))),
{
}

/// Where the caller asks for kind `k`, any other tag is refused as the wrong type.
pub proof fn lemma_unexpected_type(k: Kind, s: Seq<u8>, pos: int)
    requires
        0 <= pos,
        pos + 3 <= s.len(),
        s.subrange(pos, pos + 3) != tag_spec(k),
    ensures
        parse_expected(k, s, pos) == Err::<(Value, int), _>(Error::UnexpectedType),
{
}

} // verus!
