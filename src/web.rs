use vstd::prelude::*;

use vstd::string::StringExecFns;

verus! {

/// Errors of the browser session.
#[derive(Debug, Clone, Copy, PartialEq, Eq, Structural)]
pub enum WebError {
    /// The URL's scheme is neither `http` nor `https`.
    InvalidUrl,
    /// The served certificate fingerprint is not hexadecimal.
    InvalidFingerprint,
}

/// Value of a hexadecimal digit given as a byte (either case).
pub open spec fn hex_byte_value(c: u8) -> Option<u8> {
    if 0x30 <= c <= 0x39 {
        Some((c - 0x30) as u8)
    } else if 0x61 <= c <= 0x66 {
        Some((c - 0x61 + 10) as u8)
    } else if 0x41 <= c <= 0x46 {
        Some((c - 0x41 + 10) as u8)
    } else {
        None
    }
}

/// The bytes written as hexadecimal in `b`, two digits each; `None` for an odd
/// length or a byte that is not a digit.
pub open spec fn hex_decoded(b: Seq<u8>) -> Option<Seq<u8>> {
    if b.len() % 2 != 0 || exists|i: int| 0 <= i < b.len() && (#[trigger] hex_byte_value(b[i])) is None {
        None
    } else {
        Some(
            Seq::new(
                b.len() / 2,
                |i: int| (hex_byte_value(b[2 * i])->Some_0 * 16 + hex_byte_value(b[2 * i + 1])->Some_0) as u8,
            ),
        )
    }
}

/// Relies on `hex::decode`: pairs of hexadecimal digits of either case, each
/// giving one byte; an odd length or any other byte is an error.
#[verifier::external_body]
fn hex_decode(data: &[u8]) -> (r: Option<Vec<u8>>)
    ensures
        match r {
            Some(v) => hex_decoded(data@) == Some(v@),
            None => hex_decoded(data@) is None,
        },
{
    hex::decode(data).ok()
}

/// ASCII white space, as trimmed around a fetched fingerprint.
pub open spec fn is_space(c: u8) -> bool {
    c == 0x20 || c == 0x09 || c == 0x0a || c == 0x0b || c == 0x0c || c == 0x0d
}

/// `b` without its leading and trailing white space: the range `[start, end)`.
pub open spec fn trimmed_range(b: Seq<u8>, start: int, end: int) -> bool {
    &&& 0 <= start <= end <= b.len()
    &&& forall|i: int| 0 <= i < start ==> is_space(#[trigger] b[i])
    &&& forall|i: int| end <= i < b.len() ==> is_space(#[trigger] b[i])
    &&& start < end ==> !is_space(b[start]) && !is_space(b[end - 1])
}

/// Decodes the certificate fingerprint served as hexadecimal text, ignoring
/// white space around it.
pub fn fingerprint(body: &[u8]) -> (r: Result<Vec<u8>, WebError>)
    ensures
        exists|start: int, end: int| {
            &&& trimmed_range(body@, start, end)
            &&& match hex_decoded(body@.subrange(start, end)) {
                Some(v) => (r matches Ok(w) && w@ == v),
                None => r == Err::<Vec<u8>, WebError>(WebError::InvalidFingerprint),
            }
        },
{
    let mut start: usize = 0;
    while start < body.len() && is_space_byte(body[start])
        invariant
            start <= body@.len(),
            forall|i: int| 0 <= i < start ==> is_space(#[trigger] body@[i]),
        decreases body.len() - start,
    {
        start = start + 1;
    }
    let mut end: usize = body.len();
    while end > start && is_space_byte(body[end - 1])
        invariant
            start <= end <= body@.len(),
            forall|i: int| end <= i < body@.len() ==> is_space(#[trigger] body@[i]),
        decreases end,
    {
        end = end - 1;
    }
    let mut trimmed: Vec<u8> = Vec::new();
    let mut i = start;
    while i < end
        invariant
            start <= i <= end <= body@.len(),
            trimmed@ == body@.subrange(start as int, i as int),
        decreases end - i,
    {
        trimmed.push(body[i]);
        assert(trimmed@ =~= body@.subrange(start as int, i + 1));
        i = i + 1;
    }
    assert(trimmed_range(body@, start as int, end as int));
    match hex_decode(trimmed.as_slice()) {
        Some(v) => Ok(v),
        None => Err(WebError::InvalidFingerprint),
    }
}

fn is_space_byte(c: u8) -> (r: bool)
    ensures
        r == is_space(c),
{
    c == 0x20 || c == 0x09 || c == 0x0a || c == 0x0b || c == 0x0c || c == 0x0d
}

/// How a browser session reaches a relay, by the URL's scheme.
#[derive(Debug, Clone, Copy, PartialEq, Eq, Structural)]
pub enum ConnectPlan {
    /// `http`: fetch the certificate fingerprint over HTTP first, then connect
    /// over `https` trusting that fingerprint.
    Fingerprint,
    /// `https`: connect directly.
    Direct,
}

pub open spec fn http_chars() -> Seq<char> {
    seq!['h', 't', 't', 'p']
}

pub open spec fn https_chars() -> Seq<char> {
    seq!['h', 't', 't', 'p', 's']
}

/// The scheme of the URL written in `s`, as the URL parser reads it; `None`
/// when it is not a URL.
pub uninterp spec fn url_scheme_of(s: Seq<char>) -> Option<Seq<char>>;

/// Relies on `url::Url::parse` and the parsed URL's scheme.
#[verifier::external_body]
fn url_scheme(s: &str) -> (r: Option<String>)
    ensures
        match r {
            Some(v) => url_scheme_of(s@) == Some(v@),
            None => url_scheme_of(s@) is None,
        },
{
    url::Url::parse(s).ok().map(|u| u.scheme().to_string())
}

/// How to reach the relay at `addr`: an address that does not parse as a URL,
/// or whose scheme is neither `http` nor `https`, is `InvalidUrl`.
pub fn session_plan(addr: &str) -> (r: Result<ConnectPlan, WebError>)
    ensures
        match url_scheme_of(addr@) {
            None => r == Err::<ConnectPlan, WebError>(WebError::InvalidUrl),
            Some(sc) => r == plan_spec(sc),
        },
{
    match url_scheme(addr) {
        None => Err(WebError::InvalidUrl),
        Some(scheme) => connect_plan(scheme.as_str()),
    }
}

pub open spec fn plan_spec(scheme: Seq<char>) -> Result<ConnectPlan, WebError> {
    if scheme == http_chars() {
        Ok(ConnectPlan::Fingerprint)
    } else if scheme == https_chars() {
        Ok(ConnectPlan::Direct)
    } else {
        Err(WebError::InvalidUrl)
    }
}

/// Chooses how to connect from the URL's scheme.
pub fn connect_plan(scheme: &str) -> (r: Result<ConnectPlan, WebError>)
    ensures
        r == plan_spec(scheme@),
{
    let s = scheme.to_owned();
    let http = String::from_str("http");
    let https = String::from_str("https");
    proof {
        reveal_strlit("http");
        reveal_strlit("https");
        assert(http@ =~= http_chars());
        assert(https@ =~= https_chars());
    }
    if s == http {
        Ok(ConnectPlan::Fingerprint)
    } else if s == https {
        Ok(ConnectPlan::Direct)
    } else {
        Err(WebError::InvalidUrl)
    }
}

} // verus!
