//! The metainfo consumer: the two lookups a torrent reader needs.
//!
//! Given the bytes of a metainfo file, a bencoded dictionary, this reports
//! the tracker URL under the `tracker-url` key and the torrent length under
//! `length` inside the `info` sub-dictionary, and renders both as one piece
//! of text, with a distinguishable error when either is missing.

use vstd::prelude::*;
use vstd::string::StringExecFns;
use vstd::utf8::decode_utf8;

use crate::decode::spec_decode_dict;
use crate::decode::decode_dict;
use crate::decode::DecodeError;
use crate::decode::MAX_DEPTH;
use crate::value::dict_get;
use crate::value::is_utf8;
use crate::value::BValue;
use crate::value::Bencode;

verus! {

/// Why the metainfo consumer failed.
#[derive(Debug, Clone, Copy, PartialEq, Eq, Structural)]
pub enum MetainfoError {
    /// The bytes are not a well-formed bencoded dictionary.
    Decode(DecodeError),
    /// No `tracker-url` key maps to a byte string.
    MissingTrackerUrl,
    /// The `tracker-url` value is a byte string but not valid UTF-8.
    TrackerUrlNotText,
    /// No `info` sub-dictionary with an integer `length` key.
    MissingLength,
}

/// The bytes of the key `tracker-url`.
pub open spec fn tracker_url_key() -> Seq<u8> {
    seq![116u8, 114u8, 97u8, 99u8, 107u8, 101u8, 114u8, 45u8, 117u8, 114u8, 108u8]
}

/// The bytes of the key `info`.
pub open spec fn info_key() -> Seq<u8> {
    seq![105u8, 110u8, 102u8, 111u8]
}

/// The bytes of the key `length`.
pub open spec fn length_key() -> Seq<u8> {
    seq![108u8, 101u8, 110u8, 103u8, 116u8, 104u8]
}

/// The tracker URL as text and the length that a metainfo document holds, or
/// the first error on the way to them: decoding, then the `tracker-url`
/// lookup and its reading as UTF-8 text, then `length` under `info`.  A
/// `tracker-url` or `length` entry of the wrong shape counts as missing.
pub open spec fn spec_torrent_details(s: Seq<u8>) -> Result<(Seq<char>, int), MetainfoError> {
    match spec_decode_dict(s, (MAX_DEPTH - 1) as nat) {
        Result::Err(e) => Result::Err(MetainfoError::Decode(e)),
        Result::Ok(p) => match p.0 {
            BValue::Dict(es) => match dict_get(es, tracker_url_key()) {
                Option::None => Result::Err(MetainfoError::MissingTrackerUrl),
                Option::Some(tv) => match tv {
                    BValue::Bytes(url) => if !is_utf8(url) {
                        Result::Err(MetainfoError::TrackerUrlNotText)
                    } else {
                        match dict_get(es, info_key()) {
                            Option::Some(BValue::Dict(ies)) => match dict_get(ies, length_key()) {
                                Option::Some(BValue::Int(l)) => Result::Ok((decode_utf8(url), l)),
                                _ => Result::Err(MetainfoError::MissingLength),
                            },
                            _ => Result::Err(MetainfoError::MissingLength),
                        }
                    },
                    _ => Result::Err(MetainfoError::MissingTrackerUrl),
                },
            },
            // A successful dictionary decode always carries a dictionary.
            _ => Result::Err(MetainfoError::Decode(DecodeError::MalformedInput)),
        },
    }
}

/// The key `tracker-url` as concrete bytes.
fn tracker_url_key_bytes() -> (r: Vec<u8>)
    ensures
        r@ == tracker_url_key(),
{
    let mut v: Vec<u8> = Vec::new();
    v.push(116);
    v.push(114);
    v.push(97);
    v.push(99);
    v.push(107);
    v.push(101);
    v.push(114);
    v.push(45);
    v.push(117);
    v.push(114);
    v.push(108);
    proof {
        assert(v@ =~= tracker_url_key());
    }
    v
}

/// The key `info` as concrete bytes.
fn info_key_bytes() -> (r: Vec<u8>)
    ensures
        r@ == info_key(),
{
    let mut v: Vec<u8> = Vec::new();
    v.push(105);
    v.push(110);
    v.push(102);
    v.push(111);
    proof {
        assert(v@ =~= info_key());
    }
    v
}

/// The key `length` as concrete bytes.
fn length_key_bytes() -> (r: Vec<u8>)
    ensures
        r@ == length_key(),
{
    let mut v: Vec<u8> = Vec::new();
    v.push(108);
    v.push(101);
    v.push(110);
    v.push(103);
    v.push(116);
    v.push(104);
    proof {
        assert(v@ =~= length_key());
    }
    v
}

/// Read the tracker URL and the length out of metainfo bytes.
pub fn torrent_details(contents: &[u8]) -> (r: Result<(String, i64), MetainfoError>)
    ensures
        match r {
            Result::Ok(p) => spec_torrent_details(contents@) == Result::Ok::<
                (Seq<char>, int),
                MetainfoError,
            >((p.0@, p.1 as int)),
            Result::Err(e) => spec_torrent_details(contents@) == Result::Err::<
                (Seq<char>, int),
                MetainfoError,
            >(e),
        },
{
    let dict = match decode_dict(contents) {
        Result::Ok(p) => p.0,
        Result::Err(e) => {
            return Result::Err(MetainfoError::Decode(e));
        },
    };
    let tracker_key = tracker_url_key_bytes();
    let url_v = match dict.get(tracker_key.as_slice()) {
        Option::Some(v) => v,
        Option::None => {
            return Result::Err(MetainfoError::MissingTrackerUrl);
        },
    };
    match url_v {
        Bencode::Bytes(_) => {},
        _ => {
            return Result::Err(MetainfoError::MissingTrackerUrl);
        },
    }
    let url_str = match url_v.as_text() {
        Option::Some(t) => t,
        Option::None => {
            return Result::Err(MetainfoError::TrackerUrlNotText);
        },
    };
    let inf_key = info_key_bytes();
    let info_v = match dict.get(inf_key.as_slice()) {
        Option::Some(v) => v,
        Option::None => {
            return Result::Err(MetainfoError::MissingLength);
        },
    };
    let len_key = length_key_bytes();
    let len_v = match info_v.get(len_key.as_slice()) {
        Option::Some(v) => v,
        Option::None => {
            return Result::Err(MetainfoError::MissingLength);
        },
    };
    match len_v {
        Bencode::Int(l) => Result::Ok((url_str.to_owned(), *l)),
        _ => Result::Err(MetainfoError::MissingLength),
    }
}

/// The character of a single decimal digit.
pub open spec fn spec_digit_char(d: int) -> char {
    ((48 + d) as u8) as char
}

/// The decimal digits of a non-negative number, most significant first.
pub open spec fn spec_dec_chars(n: int) -> Seq<char>
    recommends
        n >= 0,
    decreases n,
{
    if n < 10 {
        seq![spec_digit_char(n)]
    } else {
        spec_dec_chars(n / 10).push(spec_digit_char(n % 10))
    }
}

/// The decimal rendering of a signed number: a minus sign, then the digits
/// of its magnitude.
pub open spec fn spec_int_chars(n: int) -> Seq<char> {
    if n < 0 {
        seq!['-'] + spec_dec_chars(-n)
    } else {
        spec_dec_chars(n)
    }
}

/// One decimal digit as text.
fn digit_str(d: u64) -> (r: &'static str)
    requires
        d < 10,
    ensures
        r@ == seq![spec_digit_char(d as int)],
{
    let r = match d {
        0 => "0",
        1 => "1",
        2 => "2",
        3 => "3",
        4 => "4",
        5 => "5",
        6 => "6",
        7 => "7",
        8 => "8",
        9 => "9",
        _ => vstd::pervasive::unreached(),
    };
    proof {
        reveal_strlit("0");
        reveal_strlit("1");
        reveal_strlit("2");
        reveal_strlit("3");
        reveal_strlit("4");
        reveal_strlit("5");
        reveal_strlit("6");
        reveal_strlit("7");
        reveal_strlit("8");
        reveal_strlit("9");
        assert(r@ =~= seq![spec_digit_char(d as int)]);
    }
    r
}

/// A non-negative number rendered as decimal text.
fn u64_to_string(m: u64) -> (s: String)
    ensures
        s@ == spec_dec_chars(m as int),
    decreases m,
{
    if m < 10 {
        digit_str(m).to_owned()
    } else {
        let mut s = u64_to_string(m / 10);
        s.append(digit_str(m % 10));
        proof {
            assert(spec_dec_chars((m / 10) as int).push(spec_digit_char((m % 10) as int)) =~= s@);
        }
        s
    }
}

/// A signed number rendered as decimal text.
fn i64_to_string(n: i64) -> (s: String)
    ensures
        s@ == spec_int_chars(n as int),
{
    if n >= 0 {
        u64_to_string(n as u64)
    } else {
        let mag: u64 = ((-(n + 1)) as u64) + 1;
        let mut s = "-".to_owned();
        s.append(u64_to_string(mag).as_str());
        proof {
            reveal_strlit("-");
            assert(mag as int == -(n as int));
            assert(s@ =~= spec_int_chars(n as int));
        }
        s
    }
}

/// The rendered report: the tracker URL line, then the length line.
pub open spec fn spec_details_text(url: Seq<char>, length: int) -> Seq<char> {
    "Tracker URL: "@ + url + "\n"@ + "Length: "@ + spec_int_chars(length) + "\n"@
}

/// Render a metainfo document as its tracker URL line and its length line,
/// or fail as [`torrent_details`] does.
pub fn fmt_torrent_details(contents: &[u8]) -> (r: Result<String, MetainfoError>)
    ensures
        match r {
            Result::Ok(out) => spec_torrent_details(contents@) matches Result::Ok(p) && out@
                == spec_details_text(p.0, p.1),
            Result::Err(e) => spec_torrent_details(contents@) == Result::Err::<
                (Seq<char>, int),
                MetainfoError,
            >(e),
        },
{
    let (url, length) = match torrent_details(contents) {
        Result::Ok(p) => p,
        Result::Err(e) => {
            return Result::Err(e);
        },
    };
    let mut out = "Tracker URL: ".to_owned();
    out.append(url.as_str());
    out.append("\n");
    out.append("Length: ");
    out.append(i64_to_string(length).as_str());
    out.append("\n");
    proof {
        assert(out@ =~= spec_details_text(url@, length as int));
    }
    Result::Ok(out)
}

} // verus!
