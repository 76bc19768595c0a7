use vstd::prelude::*;
use vstd::string::{StrSliceExecFns, StringExecFns};
use crate::bytes::{be_u32_at, copy_range, read_u32_be};
use crate::error::Error;

verus! {

/// How the payload of a frame is compressed.
#[derive(Debug, Clone, Copy, PartialEq, Eq)]
pub enum Compression {
    Off,
    Zlib,
}

/// The scheme that a frame's compression byte names, if any.
pub open spec fn compression_of(code: u8) -> Option<Compression> {
    if code == 0 {
        Some(Compression::Off)
    } else if code == 1 {
        Some(Compression::Zlib)
    } else {
        None
    }
}

impl Compression {
    /// Reads a frame's compression byte.
    pub fn from_code(code: u8) -> (r: Result<Compression, Error>)
        ensures
            match compression_of(code) {
                Some(c) => r == Ok::<_, Error>(c),
                None => r == Err::<Compression, _>(Error::UnknownCompression(code)),
            },
    {
        match code {
            0 => Ok(Compression::Off),
            1 => Ok(Compression::Zlib),
            _ => Err(Error::UnknownCompression(code)),
        }
    }
}

/// The number of payload bytes behind the five header bytes of a frame whose length
/// field reads `declared`; the length counts the header itself.
pub fn payload_len(declared: u32) -> (r: Result<usize, Error>)
    ensures
        declared < 5 ==> r == Err::<usize, _>(Error::InvalidMessageLength),
        declared >= 5 ==> r == Ok::<_, Error>((declared - 5) as usize),
{
    if declared < 4 {
        return Err(Error::InvalidMessageLength);
    }
    let rest = declared - 4;
    if rest < 1 {
        return Err(Error::InvalidMessageLength);
    }
    Ok((rest - 1) as usize)
}

/// What a ZLIB stream decompresses to, or `None` where it is corrupt.
pub uninterp spec fn zlib_inflated(data: Seq<u8>) -> Option<Seq<u8>>;

/// Relies on libflate's `zlib::Decoder`, read to its end: the outcome depends on the
/// compressed bytes alone.
#[verifier::external_body]
fn inflate(data: &[u8]) -> (r: Option<Vec<u8>>)
    ensures
        match r {
            Some(v) => zlib_inflated(data@) == Some(v@),
            None => zlib_inflated(data@) is None,
        },
{
    let mut out = Vec::new();
    match libflate::zlib::Decoder::new(data) {
        Ok(mut d) => match std::io::Read::read_to_end(&mut d, &mut out) {
            Ok(_) => Some(out),
            Err(_) => None,
        },
        Err(_) => None,
    }
}

/// The payload that `raw` stands for under `c`.
pub open spec fn decompressed(raw: Seq<u8>, c: Compression) -> Result<Seq<u8>, Error> {
    match c {
        Compression::Off => Ok(raw),
        Compression::Zlib => match zlib_inflated(raw) {
            Some(v) => Ok(v),
            None => Err(Error::Io),
        },
    }
}

/// Undoes the compression of a frame's payload, all of it at once.
pub fn decompress(raw: Vec<u8>, c: Compression) -> (r: Result<Vec<u8>, Error>)
    ensures
        match r {
            Ok(v) => decompressed(raw@, c) == Ok::<_, Error>(v@),
            Err(e) => decompressed(raw@, c) == Err::<Seq<u8>, _>(e),
        },
{
    match c {
        Compression::Off => Ok(raw),
        Compression::Zlib => match inflate(raw.as_slice()) {
            Some(v) => Ok(v),
            None => Err(Error::Io),
        },
    }
}

/// A whole frame at the start of `s`: its payload, decompressed, and the frame's size.
pub open spec fn frame_spec(s: Seq<u8>) -> Result<(Seq<u8>, int), Error> {
    if s.len() < 4 {
        Err(Error::UnexpectedEof)
    } else if be_u32_at(s, 0) < 5 {
        Err(Error::InvalidMessageLength)
    } else if s.len() < 5 {
        Err(Error::UnexpectedEof)
    } else {
        match compression_of(s[4]) {
            None => Err(Error::UnknownCompression(s[4])),
            Some(c) => {
                let end = be_u32_at(s, 0);
                if s.len() < end {
                    Err(Error::UnexpectedEof)
                } else {
                    match decompressed(s.subrange(5, end), c) {
                        Ok(v) => Ok((v, end)),
                        Err(e) => Err(e),
                    }
                }
            },
        }
    }
}

/// Reads one frame from the start of `data`: a four-byte big-endian length that counts
/// the whole frame, a compression byte, then the payload. Returns the decompressed
/// payload and the number of bytes that the frame took.
pub fn read_message(data: &[u8]) -> (r: Result<(Vec<u8>, usize), Error>)
    ensures
        match r {
            Ok((v, n)) => frame_spec(data@) == Ok::<_, Error>((v@, n as int)),
            Err(e) => frame_spec(data@) == Err::<(Seq<u8>, int), _>(e),
        },
{
    if data.len() < 4 {
        return Err(Error::UnexpectedEof);
    }
    let declared = read_u32_be(data, 0);
    let n = match payload_len(declared) {
        Ok(n) => n,
        Err(e) => return Err(e),
    };
    if data.len() < 5 {
        return Err(Error::UnexpectedEof);
    }
    let c = match Compression::from_code(data[4]) {
        Ok(c) => c,
        Err(e) => return Err(e),
    };
    if data.len() - 5 < n {
        return Err(Error::UnexpectedEof);
    }
    let raw = copy_range(data, 5, 5 + n);
    match decompress(raw, c) {
        Ok(v) => Ok((v, 5 + n)),
        Err(e) => Err(e),
    }
}

/// `s` with a backslash put before every comma.
pub open spec fn escape_commas(s: Seq<char>) -> Seq<char>
    decreases s.len(),
{
    if s.len() == 0 {
        Seq::empty()
    } else if s.last() == ',' {
        escape_commas(s.drop_last()) + seq!['\\', ',']
    } else {
        escape_commas(s.drop_last()).push(s.last())
    }
}

/// Escapes the commas of `s`.
pub fn escape_password(s: &str) -> (r: String)
    ensures
        r@ == escape_commas(s@),
{
    proof {
        reveal_strlit("");
    }
    let len = s.unicode_len();
    let mut out = String::from_str("");
    let mut start: usize = 0;
    let mut i: usize = 0;
    assert(s@.subrange(0, 0) =~= Seq::<char>::empty());
    while i < len
        invariant
            len == s@.len(),
            start <= i <= len,
            out@ == escape_commas(s@.subrange(0, start as int)),
            escape_commas(s@.subrange(0, i as int)) == out@ + s@.subrange(start as int, i as int),
        decreases len - i,
    {
        let c = s.get_char(i);
        assert(s@.subrange(0, i + 1).drop_last() =~= s@.subrange(0, i as int));
        let ghost before = out@;
        let ghost seg = s@.subrange(start as int, i as int);
        if c == ',' {
            out.append(s.substring_char(start, i));
            out.append("\\,");
            proof {
                reveal_strlit("\\,");
            }
            assert("\\,"@ =~= seq!['\\', ',']);
            assert(out@ =~= before + seg + seq!['\\', ',']);
            start = i + 1;
            assert(s@.subrange(start as int, start as int) =~= Seq::<char>::empty());
            assert(out@ + s@.subrange(start as int, start as int) =~= out@);
        } else {
            assert(s@.subrange(start as int, i + 1) =~= seg.push(c));
            assert((before + seg).push(c) =~= before + seg.push(c));
        }
        i = i + 1;
    }
    out.append(s.substring_char(start, len));
    assert(s@.subrange(0, len as int) =~= s@);
    out
}

/// The name by which the init line asks for a compression scheme.
pub open spec fn compression_name(c: Compression) -> Seq<char> {
    match c {
        Compression::Off => "off"@,
        Compression::Zlib => "zlib"@,
    }
}

/// The line that opens a session: `init compression=<off|zlib>,password=<escaped>\n`.
pub open spec fn init_line_spec(password: Seq<char>, c: Compression) -> Seq<char> {
    "init compression="@ + compression_name(c) + ",password="@ + escape_commas(password)
        + "\n"@
}

/// Builds the line that opens a session, with the password's commas escaped.
pub fn init_line(password: &str, c: Compression) -> (r: String)
    ensures
        r@ == init_line_spec(password@, c),
{
    let mut out = String::from_str("init compression=");
    match c {
        Compression::Off => out.append("off"),
        Compression::Zlib => out.append("zlib"),
    }
    out.append(",password=");
    let escaped = escape_password(password);
    out.append(escaped.as_str());
    out.append("\n");
    out
}

} // verus!

verus! {

/// A frame whose length field cannot cover its own four bytes and the compression byte
/// is refused for its length, and one whose compression byte is neither 0 nor 1 for
/// that byte.
pub proof fn lemma_frame_header_errors(s: Seq<u8>)
    requires
        s.len() >= 4,
    ensures
        be_u32_at(s, 0) < 5 ==> frame_spec(s) == Err::<(Seq<u8>, int), _>(
            Error::InvalidMessageLength,
        ),
        be_u32_at(s, 0) >= 5 && s.len() >= 5 && s[4] > 1 ==> frame_spec(s) == Err::<
            (Seq<u8>, int),
            _,
        >(Error::UnknownCompression(s[4])),
{
}

} // verus!
