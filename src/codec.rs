use vstd::prelude::*;

use vstd::string::{StrSliceExecFns, StringExecFns};

verus! {

/// Lower-case hexadecimal digit of `d`.
pub open spec fn hex_char(d: u8) -> char {
    if d < 10 {
        (('0' as u8) + d) as char
    } else {
        (('a' as u8) + (d - 10)) as char
    }
}

/// Value of a hexadecimal digit (either case).
pub open spec fn hex_value(c: char) -> Option<u8> {
    if '0' <= c && c <= '9' {
        Some((c as u32 - '0' as u32) as u8)
    } else if 'a' <= c && c <= 'f' {
        Some((c as u32 - 'a' as u32 + 10) as u8)
    } else if 'A' <= c && c <= 'F' {
        Some((c as u32 - 'A' as u32 + 10) as u8)
    } else {
        None
    }
}

/// Two lower-case hexadecimal digits of `b`.
pub open spec fn hex2(b: u8) -> Seq<char> {
    seq![hex_char(b / 16), hex_char(b % 16)]
}

fn hex_digit(d: u8) -> (r: &'static str)
    requires
        d < 16,
    ensures
        r@ == seq![hex_char(d)],
{
    let r = match d {
        0 => "0",
        1 => "1",
        2 => "2",
        3 => "3",
        4 => "4",
        5 => "5",
        6 => "6",
        7 => "7",
        8 => "8",
        9 => "9",
        10 => "a",
        11 => "b",
        12 => "c",
        13 => "d",
        14 => "e",
        _ => "f",
    };
    proof {
        reveal_strlit("0");
        reveal_strlit("1");
        reveal_strlit("2");
        reveal_strlit("3");
        reveal_strlit("4");
        reveal_strlit("5");
        reveal_strlit("6");
        reveal_strlit("7");
        reveal_strlit("8");
        reveal_strlit("9");
        reveal_strlit("a");
        reveal_strlit("b");
        reveal_strlit("c");
        reveal_strlit("d");
        reveal_strlit("e");
        reveal_strlit("f");
        assert(r@ =~= seq![hex_char(d)]);
    }
    r
}

fn push_hex2(s: &mut String, b: u8)
    ensures
        final(s)@ == old(s)@ + hex2(b),
{
    s.append(hex_digit(b / 16));
    s.append(hex_digit(b % 16));
    assert(s@ =~= old(s)@ + hex2(b));
}

fn digit_value(c: char) -> (r: Option<u8>)
    ensures
        r == hex_value(c),
{
    if '0' <= c && c <= '9' {
        Some((c as u32 - '0' as u32) as u8)
    } else if 'a' <= c && c <= 'f' {
        Some((c as u32 - 'a' as u32 + 10) as u8)
    } else if 'A' <= c && c <= 'F' {
        Some((c as u32 - 'A' as u32 + 10) as u8)
    } else {
        None
    }
}

/// Errors of the codec strings.
#[derive(Debug, Clone, Copy, PartialEq, Eq, Structural)]
pub enum CodecError {
    Invalid,
}

/// The HEVC codec parameters of a video track.
#[derive(Debug, Clone, Copy, PartialEq, Eq, Structural)]
pub struct H265 {
    pub profile: u8,
    pub constraints: u8,
    pub level: u8,
}

pub open spec fn hev1_prefix() -> Seq<char> {
    seq!['h', 'e', 'v', '1', '.']
}

impl H265 {
    /// `hev1.` followed by profile, constraints and level as two hexadecimal
    /// digits each.
    pub open spec fn spec_string(self) -> Seq<char> {
        hev1_prefix() + hex2(self.profile) + hex2(self.constraints) + hex2(self.level)
    }

    pub fn to_string(&self) -> (r: String)
        ensures
            r@ == self.spec_string(),
    {
        let mut s = String::from_str("hev1.");
        proof {
            reveal_strlit("hev1.");
            assert(s@ =~= hev1_prefix());
        }
        push_hex2(&mut s, self.profile);
        push_hex2(&mut s, self.constraints);
        push_hex2(&mut s, self.level);
        s
    }
}

/// The VP8 codec, which has no parameters.
#[derive(Debug, Clone, Copy, PartialEq, Eq, Structural)]
pub struct VP8;

pub open spec fn vp8_string() -> Seq<char> {
    seq!['v', 'p', '8']
}

impl VP8 {
    pub fn to_string(&self) -> (r: String)
        ensures
            r@ == vp8_string(),
    {
        proof {
            reveal_strlit("vp8");
        }
        let s = String::from_str("vp8");
        assert(s@ =~= vp8_string());
        s
    }

    /// Accepts exactly `vp8`.
    pub fn from_str(s: &str) -> (r: Result<VP8, CodecError>)
        ensures
            r is Ok <==> s@ == vp8_string(),
            r is Err ==> r == Err::<VP8, CodecError>(CodecError::Invalid),
    {
        let owned = s.to_owned();
        let expected = String::from_str("vp8");
        proof {
            reveal_strlit("vp8");
            assert(expected@ =~= vp8_string());
        }
        if owned == expected {
            Ok(VP8)
        } else {
            Err(CodecError::Invalid)
        }
    }
}

/// The codec of a video track, recognised from its codec string.
#[derive(Debug, PartialEq, Eq)]
pub enum VideoCodec {
    H265(H265),
    VP8(VP8),
    /// A codec string not recognised here, kept as given.
    Unknown(String),
}

/// Reading `hev1.` or `hvc1.` followed by six hexadecimal digits.
pub open spec fn h265_parse(s: Seq<char>) -> Option<H265> {
    if s.len() == 11 && (s.subrange(0, 5) == hev1_prefix() || s.subrange(0, 5) == seq!['h', 'v', 'c', '1', '.'])
        && (forall|i: int| 5 <= i < 11 ==> (#[trigger] hex_value(s[i])) is Some) {
        Some(
            H265 {
                profile: (hex_value(s[5])->Some_0 * 16 + hex_value(s[6])->Some_0) as u8,
                constraints: (hex_value(s[7])->Some_0 * 16 + hex_value(s[8])->Some_0) as u8,
                level: (hex_value(s[9])->Some_0 * 16 + hex_value(s[10])->Some_0) as u8,
            },
        )
    } else {
        None
    }
}

fn parse_byte(s: &str, i: usize) -> (r: Option<u8>)
    requires
        i <= 9,
        i + 1 < s@.len(),
    ensures
        r == (if hex_value(s@[i as int]) is Some && hex_value(s@[i + 1]) is Some {
            Some((hex_value(s@[i as int])->Some_0 * 16 + hex_value(s@[i + 1])->Some_0) as u8)
        } else {
            None
        }),
{
    let hi = digit_value(s.get_char(i))?;
    let lo = digit_value(s.get_char(i + 1))?;
    Some(hi * 16 + lo)
}

impl VideoCodec {

    /// Recognises `vp8` and the HEVC strings; anything else is kept as
    /// `Unknown`.
    pub fn from_str(s: &str) -> (r: VideoCodec)
        ensures
            s@ == vp8_string() ==> r == VideoCodec::VP8(VP8),
            s@ != vp8_string() && h265_parse(s@) is Some ==> r == VideoCodec::H265(h265_parse(s@)->Some_0),
            s@ != vp8_string() && h265_parse(s@) is None ==> (r matches VideoCodec::Unknown(u) && u@ == s@),
    {
        if VP8::from_str(s).is_ok() {
            return VideoCodec::VP8(VP8);
        }
        if s.unicode_len() == 11 {
            let prefix = s.substring_char(0, 5).to_owned();
            let hev1 = String::from_str("hev1.");
            let hvc1 = String::from_str("hvc1.");
            proof {
                reveal_strlit("hev1.");
                reveal_strlit("hvc1.");
                assert(hev1@ =~= hev1_prefix());
                assert(hvc1@ =~= seq!['h', 'v', 'c', '1', '.']);
            }
            if prefix == hev1 || prefix == hvc1 {
                let p = parse_byte(s, 5);
                let c = parse_byte(s, 7);
                let l = parse_byte(s, 9);
                if let (Some(profile), Some(constraints), Some(level)) = (p, c, l) {
                    return VideoCodec::H265(H265 { profile, constraints, level });
                }
                proof {
                    if forall|i: int| 5 <= i < 11 ==> (#[trigger] hex_value(s@[i])) is Some {
                        assert(hex_value(s@[5]) is Some && hex_value(s@[6]) is Some);
                        assert(hex_value(s@[7]) is Some && hex_value(s@[8]) is Some);
                        assert(hex_value(s@[9]) is Some && hex_value(s@[10]) is Some);
                    }
                }
            }
        }
        VideoCodec::Unknown(s.to_owned())
    }
}

} // verus!
