use weechat_relay::error::Error;
use weechat_relay::text::{decimal, signed_decimal};
use weechat_relay::object::{Buffer, HashTable, Info, InfoList, Kind, Object, Pointer, Str, Time};

fn bare(kind: Kind, data: &[u8]) -> Object {
    let (object, end) = Object::decode_bare(kind, data, 0).unwrap();
    assert_eq!(end, data.len());
    object
}

fn text(s: &str) -> Object {
    Object::Str(Str::from_text(s))
}

#[test]
fn char() {
    assert_eq!(Kind::Char.tag(), *b"chr");
    assert_eq!(bare(Kind::Char, b"\x41"), Object::Char(b'A' as i8));
}

#[test]
fn int_test() {
    assert_eq!(Kind::Int.tag(), *b"int");
    assert_eq!(bare(Kind::Int, b"\x00\x01\xE2\x40"), Object::Int(123456));
    assert_eq!(bare(Kind::Int, b"\xFF\xFE\x1D\xC0"), Object::Int(-123456));
}

#[test]
fn long() {
    assert_eq!(Kind::Long.tag(), *b"lon");
    assert_eq!(bare(Kind::Long, b"\x0A1234567890"), Object::Long(1234567890));
    assert_eq!(bare(Kind::Long, b"\x0B-1234567890"), Object::Long(-1234567890));
}

#[test]
fn string() {
    assert_eq!(Kind::Str.tag(), *b"str");
    assert_eq!(bare(Kind::Str, b"\0\0\0\x05hello"), text("hello"));
    assert_eq!(bare(Kind::Str, b"\0\0\0\0"), text(""));
    assert_eq!(bare(Kind::Str, b"\xff\xff\xff\xff"), Object::Str(Str::null()));
}

#[test]
fn buffer() {
    assert_eq!(Kind::Buffer.tag(), *b"buf");
    assert_eq!(bare(Kind::Buffer, b"\0\0\0\x05hello"), Object::Buffer(Buffer(Some(b"hello".to_vec()))));
    assert_eq!(bare(Kind::Buffer, b"\0\0\0\0"), Object::Buffer(Buffer(Some(vec![]))));
    assert_eq!(bare(Kind::Buffer, b"\xff\xff\xff\xff"), Object::Buffer(Buffer(None)));
}

#[test]
fn pointer() {
    assert_eq!(Kind::Pointer.tag(), *b"ptr");
    assert_eq!(bare(Kind::Pointer, b"\x091a2b3c4d5"), Object::Pointer(Pointer(format!("{:x}", 0x1a2b3c4d5u64))));
    assert_eq!(bare(Kind::Pointer, b"\x010"), Object::Pointer(Pointer(format!("{:x}", 0x0u64))));
}

#[test]
fn time() {
    assert_eq!(Kind::Time.tag(), *b"tim");
    assert_eq!(bare(Kind::Time, b"\x0A1321993456"), Object::Time(Time(1321993456)));
}

#[test]
fn hash_table() {
    assert_eq!(Kind::HashTable.tag(), *b"htb");
    let data = b"strstr\0\0\0\x02\0\0\0\x04key1\0\0\0\x03abc\0\0\0\x04key2\0\0\0\x03def";
    let (table, end) = HashTable::decode_bare(data, 0).unwrap();
    assert_eq!(end, data.len());
    assert_eq!(table.len(), 2);
    assert_eq!(table.get(&text("key1")), Some(&text("abc")));
    assert_eq!(table.get(&text("key2")), Some(&text("def")));
}

#[test]
fn info() {
    assert_eq!(Kind::Info.tag(), *b"inf");
    let (info, _) = Info::decode_bare(b"\0\0\0\x04name\0\0\0\x05value", 0).unwrap();
    assert_eq!(info, Info { name: Str::from_text("name"), value: Str::from_text("value") });
    assert_eq!(info.name(), "name");
    assert_eq!(info.value(), "value");
}

#[test]
fn info_list() {
    assert_eq!(Kind::InfoList.tag(), *b"inl");
    let data = b"\0\0\0\x06buffer\0\0\0\x02\0\0\0\x01\0\0\0\x09full_namestr\0\0\0\x0ccore.weechat\0\0\0\x02\0\0\0\x06numberint\0\0\0\x02\0\0\0\x04nameptr\x031f0";
    let (list, end) = InfoList::decode_bare(data, 0).unwrap();
    assert_eq!(end, data.len());
    assert_eq!(list.name.as_str(), "buffer");
    assert_eq!(list.items.len(), 2);
    assert_eq!(list.items[0].get(&text("full_name")), Some(&text("core.weechat")));
    assert_eq!(list.items[1].get(&text("number")), Some(&Object::Int(2)));
    assert_eq!(list.items[1].get(&text("name")), Some(&Object::Pointer(Pointer("1f0".to_string()))));
}

#[test]
fn array() {
    assert_eq!(Kind::Array.tag(), *b"arr");
    assert_eq!(
        bare(Kind::Array, b"str\0\0\0\x02\0\0\0\x03abc\0\0\0\x02de"),
        Object::Array(vec![text("abc"), text("de")])
    );
    assert_eq!(
        bare(Kind::Array, b"int\0\0\0\x03\0\0\0\x7B\0\0\x01\xC8\0\0\x03\x15"),
        Object::Array(vec![Object::Int(123), Object::Int(456), Object::Int(789)])
    );
}

#[test]
fn hash_table_order_does_not_matter() {
    let a = b"strstr\0\0\0\x02\0\0\0\x04key1\0\0\0\x03abc\0\0\0\x04key2\0\0\0\x03def";
    let b = b"strstr\0\0\0\x02\0\0\0\x04key2\0\0\0\x03def\0\0\0\x04key1\0\0\0\x03abc";
    let (ta, _) = HashTable::decode_bare(a, 0).unwrap();
    let (tb, _) = HashTable::decode_bare(b, 0).unwrap();
    for key in ["key1", "key2"] {
        assert_eq!(ta.get(&text(key)), tb.get(&text(key)));
    }
    assert_eq!(ta.len(), tb.len());
    assert_eq!(tb.get(&text("key3")), None);
    assert_eq!(ta, tb);
    assert!(ta.same(&tb));
    let (oa, _) = Object::decode_bare(Kind::HashTable, a, 0).unwrap();
    let (ob, _) = Object::decode_bare(Kind::HashTable, b, 0).unwrap();
    assert_eq!(oa, ob);
    assert!(oa.same(&ob));
    let c = b"strstr\0\0\0\x02\0\0\0\x04key2\0\0\0\x03xyz\0\0\0\x04key1\0\0\0\x03abc";
    let (tc, _) = HashTable::decode_bare(c, 0).unwrap();
    assert_ne!(ta, tc);
    assert!(!ta.same(&tc));
}

#[test]
fn table_keys_must_be_hashable() {
    let data = b"arrint\0\0\0\x01int\0\0\0\x00\0\0\0\x01";
    assert_eq!(HashTable::decode_bare(data, 0).map(|_| ()), Err(Error::UnexpectedType));
    let (empty, _) = HashTable::decode_bare(b"htbint\0\0\0\x00", 0).unwrap();
    assert_eq!(empty.len(), 0);
    assert_eq!(empty.get(&Object::Array(vec![])), None);
    assert_eq!(empty, HashTable::new());
}

#[test]
fn hash_table_later_duplicate_overwrites() {
    let data = b"intint\0\0\0\x03\0\0\0\x01\0\0\0\x0a\0\0\0\x02\0\0\0\x14\0\0\0\x01\0\0\0\x1e";
    let (table, _) = HashTable::decode_bare(data, 0).unwrap();
    assert_eq!(table.len(), 2);
    assert_eq!(table.get(&Object::Int(1)), Some(&Object::Int(30)));
    assert_eq!(table.get(&Object::Int(2)), Some(&Object::Int(20)));
}

#[test]
fn array_keeps_order() {
    let (object, end) = Object::decode(b"arrint\0\0\0\x03\0\0\0\x03\0\0\0\x01\0\0\0\x02", 0).unwrap();
    assert_eq!(end, 22);
    assert_eq!(object, Object::Array(vec![Object::Int(3), Object::Int(1), Object::Int(2)]));
}

#[test]
fn long_extremes_and_overflow() {
    assert_eq!(bare(Kind::Long, b"\x139223372036854775807"), Object::Long(i64::MAX));
    assert_eq!(bare(Kind::Long, b"\x14-9223372036854775808"), Object::Long(i64::MIN));
    assert_eq!(Object::decode_bare(Kind::Long, b"\x139223372036854775808", 0), Err(Error::Decoding));
    assert_eq!(Object::decode_bare(Kind::Long, b"\x01-", 0), Err(Error::Decoding));
    assert_eq!(Object::decode_bare(Kind::Long, b"\x0312a", 0).map(|_| ()), Err(Error::Decoding));
    assert_eq!(Object::decode_bare(Kind::Long, b"\x00", 0).map(|_| ()), Err(Error::Decoding));
    assert_eq!(bare(Kind::Long, b"\x02+7"), Object::Long(7));
}

#[test]
fn time_refuses_sign_and_text() {
    assert_eq!(Object::decode_bare(Kind::Time, b"\x02-1", 0).map(|_| ()), Err(Error::Decoding));
    assert_eq!(Object::decode_bare(Kind::Time, b"\x03abc", 0).map(|_| ()), Err(Error::Decoding));
    assert_eq!(bare(Kind::Time, b"\x1418446744073709551615"), Object::Time(Time(u64::MAX)));
    assert_eq!(Object::decode_bare(Kind::Time, b"\x1418446744073709551616", 0).map(|_| ()), Err(Error::Decoding));
}

#[test]
fn unknown_tag_is_refused() {
    assert_eq!(Object::decode(b"xyz\0\0\0\x01", 0), Err(Error::UnknownTag(*b"xyz")));
    assert_eq!(Object::decode_bare(Kind::Array, b"zzz\0\0\0\x00", 0), Err(Error::UnknownTag(*b"zzz")));
    assert_eq!(HashTable::decode_bare(b"strqqq\0\0\0\x00", 0).map(|_| ()), Err(Error::UnknownTag(*b"qqq")));
}

#[test]
fn unknown_tag_inside_a_container_aborts() {
    let data = b"\0\0\0\x01n\0\0\0\x01\0\0\0\x01\0\0\0\x01kbad\0";
    assert_eq!(InfoList::decode_bare(data, 0).map(|_| ()), Err(Error::UnknownTag(*b"bad")));
}

#[test]
fn other_kind_than_expected_is_refused() {
    assert_eq!(Object::decode_expected(Kind::Str, b"int\0\0\0\x01", 0), Err(Error::UnexpectedType));
    assert_eq!(Str::decode(b"int\0\0\0\x01", 0).map(|_| ()), Err(Error::UnexpectedType));
    assert_eq!(InfoList::decode(b"str\0\0\0\x00", 0).map(|_| ()), Err(Error::UnexpectedType));
    let (s, end) = Str::decode(b"str\0\0\0\x02hi", 0).unwrap();
    assert_eq!((s.as_str(), end), ("hi", 9));
}

#[test]
fn bad_lengths_and_text() {
    assert_eq!(Object::decode_bare(Kind::Str, b"\xff\xff\xff\xfe", 0).map(|_| ()), Err(Error::Decoding));
    assert_eq!(Object::decode_bare(Kind::Str, b"\0\0\0\x02\xc3\x28", 0).map(|_| ()), Err(Error::Decoding));
    assert_eq!(Object::decode_bare(Kind::Pointer, b"\x01\xff", 0).map(|_| ()), Err(Error::Decoding));
    assert_eq!(Object::decode_bare(Kind::Buffer, b"\0\0\0\x02\xc3\x28", 0), Ok((Object::Buffer(Buffer(Some(vec![0xc3, 0x28]))), 6)));
}

#[test]
fn short_input_is_refused() {
    assert_eq!(Object::decode_bare(Kind::Int, b"\0\0\0", 0), Err(Error::UnexpectedEof));
    assert_eq!(Object::decode_bare(Kind::Str, b"\0\0\0\x05hell", 0), Err(Error::UnexpectedEof));
    assert_eq!(Object::decode_bare(Kind::Char, b"", 0), Err(Error::UnexpectedEof));
    assert_eq!(Object::decode(b"st", 0), Err(Error::UnexpectedEof));
    assert_eq!(Object::decode_bare(Kind::Char, b"a", 5), Err(Error::UnexpectedEof));
}

#[test]
fn utf8_text_is_decoded() {
    let (object, _) = Object::decode_bare(Kind::Str, "\0\0\0\x03h\u{e9}".as_bytes(), 0).unwrap();
    assert_eq!(object, text("h\u{e9}"));
}

#[test]
fn same_compares_values() {
    assert!(text("a").same(&text("a")));
    assert!(!text("a").same(&text("b")));
    assert!(!text("1").same(&Object::Int(1)));
    assert!(Object::Array(vec![Object::Int(1)]).same(&Object::Array(vec![Object::Int(1)])));
    assert!(!Object::Array(vec![Object::Int(1)]).same(&Object::Array(vec![])));
}

#[test]
fn display_text() {
    assert_eq!(Object::Char(-5).to_display(), "-5");
    assert_eq!(Object::Int(123456).to_display(), "123456");
    assert_eq!(Object::Long(i64::MIN).to_display(), "-9223372036854775808");
    assert_eq!(text("abc").to_display(), "abc");
    assert_eq!(Object::Str(Str::null()).to_display(), "");
    assert_eq!(Object::Buffer(Buffer(None)).to_display(), "<buffer>");
    assert_eq!(Object::Pointer(Pointer("1f0".to_string())).to_display(), "0x1f0");
    assert_eq!(Object::Time(Time(1321993456)).to_display(), "1321993456");
    assert_eq!(
        Object::Info(Info { name: Str::from_text("a"), value: Str::from_text("b") }).to_display(),
        "(a => b)"
    );
    assert_eq!(Object::Array(vec![]).to_display(), "<array>");
    assert_eq!(Object::HashTable(HashTable::new()).to_display(), "<hash_table>");
    assert_eq!(decimal(42), "42");
    assert_eq!(signed_decimal(-42), "-42");
    assert_eq!(signed_decimal(0), "0");
}

fn enc_str(s: &str) -> Vec<u8> {
    let mut out = (s.len() as u32).to_be_bytes().to_vec();
    out.extend_from_slice(s.as_bytes());
    out
}

fn enc_short(s: &str) -> Vec<u8> {
    let mut out = vec![s.len() as u8];
    out.extend_from_slice(s.as_bytes());
    out
}

#[test]
fn encoded_values_decode_back() {
    let cases: Vec<(Kind, Vec<u8>, Object)> = vec![
        (Kind::Char, vec![0xfe], Object::Char(-2)),
        (Kind::Int, (-7i32).to_be_bytes().to_vec(), Object::Int(-7)),
        (Kind::Long, enc_short(&(-42i64).to_string()), Object::Long(-42)),
        (Kind::Time, enc_short(&u64::MAX.to_string()), Object::Time(Time(u64::MAX))),
        (Kind::Str, enc_str("caf\u{e9}"), text("caf\u{e9}")),
        (Kind::Pointer, enc_short("dead"), Object::Pointer(Pointer("dead".to_string()))),
    ];
    for (kind, bytes, expected) in cases {
        let mut tagged = kind.tag().to_vec();
        tagged.extend_from_slice(&bytes);
        tagged.extend_from_slice(b"trailing");
        let (object, end) = Object::decode(&tagged, 0).unwrap();
        assert_eq!(object, expected);
        assert_eq!(end, 3 + bytes.len());
    }
}
