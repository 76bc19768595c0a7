use std::io::Write;
use weechat_relay::command::{Command, InfoList, Ping};
use weechat_relay::text::decimal;
use weechat_relay::error::Error;
use weechat_relay::frame::{decompress, init_line, payload_len, read_message, Compression};

fn frame(code: u8, payload: &[u8]) -> Vec<u8> {
    let mut out = ((payload.len() + 5) as u32).to_be_bytes().to_vec();
    out.push(code);
    out.extend_from_slice(payload);
    out
}

fn zlib(data: &[u8]) -> Vec<u8> {
    let mut encoder = libflate::zlib::Encoder::new(Vec::new()).unwrap();
    encoder.write_all(data).unwrap();
    encoder.finish().into_result().unwrap()
}

#[test]
fn frame_length_too_small() {
    assert_eq!(read_message(b"\0\0\0\x03\0"), Err(Error::InvalidMessageLength));
    assert_eq!(read_message(b"\0\0\0\x04\0"), Err(Error::InvalidMessageLength));
    assert_eq!(read_message(b"\0\0\0\x00"), Err(Error::InvalidMessageLength));
    assert_eq!(payload_len(3), Err(Error::InvalidMessageLength));
    assert_eq!(payload_len(4), Err(Error::InvalidMessageLength));
    assert_eq!(payload_len(5), Ok(0));
    assert_eq!(payload_len(12), Ok(7));
}

#[test]
fn frame_unknown_compression() {
    assert_eq!(read_message(b"\0\0\0\x06\x02x"), Err(Error::UnknownCompression(2)));
    assert_eq!(Compression::from_code(2), Err(Error::UnknownCompression(2)));
    assert_eq!(Compression::from_code(0), Ok(Compression::Off));
    assert_eq!(Compression::from_code(1), Ok(Compression::Zlib));
}

#[test]
fn frame_plain_payload() {
    let mut data = frame(0, b"hello");
    data.extend_from_slice(b"next");
    assert_eq!(read_message(&data), Ok((b"hello".to_vec(), 10)));
    assert_eq!(read_message(b"\0\0\0\x05\0"), Ok((vec![], 5)));
}

#[test]
fn frame_short_input() {
    assert_eq!(read_message(b"\0\0"), Err(Error::UnexpectedEof));
    assert_eq!(read_message(b"\0\0\0\x09\0abc"), Err(Error::UnexpectedEof));
    assert_eq!(read_message(b"\0\0\0\x09"), Err(Error::UnexpectedEof));
}

#[test]
fn frame_zlib_payload() {
    let payload = b"\0\0\0\x05_pongstr\0\0\0\x04pong".to_vec();
    let data = frame(1, &zlib(&payload));
    let (out, used) = read_message(&data).unwrap();
    assert_eq!(out, payload);
    assert_eq!(used, data.len());
    assert_eq!(decompress(zlib(b"abc"), Compression::Zlib), Ok(b"abc".to_vec()));
    assert_eq!(decompress(b"abc".to_vec(), Compression::Off), Ok(b"abc".to_vec()));
    assert_eq!(decompress(b"not zlib".to_vec(), Compression::Zlib), Err(Error::Io));
}

#[test]
fn init_line_escapes_commas() {
    assert_eq!(init_line("secret", Compression::Off), "init compression=off,password=secret\n");
    assert_eq!(init_line("a,b,,c", Compression::Off), "init compression=off,password=a\\,b\\,\\,c\n");
    assert_eq!(init_line("x\\y", Compression::Zlib), "init compression=zlib,password=x\\y\n");
    assert_eq!(init_line("", Compression::Off), "init compression=off,password=\n");
    assert_eq!(init_line(",\u{e9},", Compression::Off), "init compression=off,password=\\,\u{e9}\\,\n");
}

#[test]
fn command_lines() {
    assert_eq!(Command::Ping(Ping("hi there".to_string())).to_line(), "ping hi there\n");
    assert_eq!(
        Command::InfoList(InfoList("7".to_string(), "buffer".to_string())).to_line(),
        "(7) infolist buffer\n"
    );
}

#[test]
fn decimal_ids() {
    assert_eq!(decimal(0), "0");
    assert_eq!(decimal(9), "9");
    assert_eq!(decimal(10), "10");
    assert_eq!(decimal(1234567890), "1234567890");
    assert_eq!(decimal(u64::MAX), u64::MAX.to_string());
}
