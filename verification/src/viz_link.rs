//! Links from a failing run to the visualiser: the payload is JSON, gzipped,
//! written in URL-safe base64 without padding, and carried in the URL
//! fragment (`#data=...`).
use vstd::prelude::*;

use std::io::{Read, Write};

use crate::results::AssertFailure;
use crate::test_spec::TestSpec;
use crate::text::{is_ascii_alnum, nat_decimal, push_str, push_u64};

verus! {

/// Schema version of `FailurePayload`; a decoder refuses other versions.
pub const PAYLOAD_VERSION: u8 = 1;

/// Self-contained description of a failing test run.
#[derive(Debug, Clone)]
pub struct FailurePayload {
    pub version: u8,
    /// Copy of the test specification.
    pub spec: TestSpec,
    /// Relative path of the test file, when known.
    pub source_path: Option<String>,
    /// Failing assertions of the run.
    pub failures: Vec<AssertFailure>,
    /// Ticks executed before the run ended.
    pub total_ticks: u32,
}

impl FailurePayload {
    pub fn new(spec: TestSpec, source_path: Option<String>, failures: Vec<AssertFailure>, total_ticks: u32) -> (r: Self)
        ensures
            r == (FailurePayload { version: PAYLOAD_VERSION, spec, source_path, failures, total_ticks }),
    {
        FailurePayload { version: PAYLOAD_VERSION, spec, source_path, failures, total_ticks }
    }
}

/// Why encoding or decoding a payload failed.
#[derive(Debug, Clone, PartialEq, Eq, Structural)]
pub enum VizError {
    /// Compressing the JSON failed.
    Compress,
    /// The text is not URL-safe base64 without padding.
    Base64,
    /// The bytes are not a gzip stream.
    Gzip,
    /// The payload has another schema version.
    VersionMismatch { got: u8 },
}

/// The message of an error.
pub open spec fn viz_error_text(e: VizError) -> Seq<char> {
    match e {
        VizError::Compress => "gzip write"@,
        VizError::Base64 => "base64 decode"@,
        VizError::Gzip => "gzip read"@,
        VizError::VersionMismatch { got } => "FailurePayload version mismatch: got "@ + nat_decimal(got as nat)
            + ", expected "@ + nat_decimal(PAYLOAD_VERSION as nat),
    }
}

impl VizError {
    pub fn message(&self) -> (r: String)
        ensures
            r@ == viz_error_text(*self),
    {
        let mut r = String::new();
        match self {
            VizError::Compress => push_str(&mut r, "gzip write"),
            VizError::Base64 => push_str(&mut r, "base64 decode"),
            VizError::Gzip => push_str(&mut r, "gzip read"),
            VizError::VersionMismatch { got } => {
                push_str(&mut r, "FailurePayload version mismatch: got ");
                push_u64(&mut r, *got as u64);
                push_str(&mut r, ", expected ");
                push_u64(&mut r, PAYLOAD_VERSION as u64);
            },
        }
        assert(r@ =~= viz_error_text(*self));
        r
    }
}

/// The character of a base64 digit in the URL-safe alphabet:
/// `A-Z a-z 0-9 - _`.
pub open spec fn b64_digit(v: int) -> char {
    if v < 26 {
        ((65 + v) as u8) as char
    } else if v < 52 {
        ((71 + v) as u8) as char
    } else if v < 62 {
        ((v - 4) as u8) as char
    } else if v == 62 {
        '-'
    } else {
        '_'
    }
}

/// URL-safe base64 without padding: every three bytes become four digits;
/// a last group of one or two bytes becomes two or three digits, the unused
/// low bits being zero.
pub open spec fn b64url(b: Seq<u8>) -> Seq<char>
    decreases b.len(),
{
    if b.len() == 0 {
        Seq::empty()
    } else {
        let x0 = b[0] as int;
        let x1 = if b.len() > 1 { b[1] as int } else { 0 };
        let x2 = if b.len() > 2 { b[2] as int } else { 0 };
        if b.len() == 1 {
            seq![b64_digit(x0 / 4), b64_digit((x0 % 4) * 16)]
        } else if b.len() == 2 {
            seq![b64_digit(x0 / 4), b64_digit((x0 % 4) * 16 + x1 / 16), b64_digit((x1 % 16) * 4)]
        } else {
            seq![
                b64_digit(x0 / 4),
                b64_digit((x0 % 4) * 16 + x1 / 16),
                b64_digit((x1 % 16) * 4 + x2 / 64),
                b64_digit(x2 % 64),
            ] + b64url(b.skip(3))
        }
    }
}

/// What `flate2`'s gzip encoder at the best compression level makes of the
/// bytes.
pub uninterp spec fn gzip_best(data: Seq<u8>) -> Seq<u8>;

/// What `flate2`'s gzip decoder reads from the bytes: `None` when they are
/// not a gzip stream.
pub uninterp spec fn gunzip(data: Seq<u8>) -> Option<Seq<u8>>;

pub open spec fn opt_bytes(o: Option<Vec<u8>>) -> Option<Seq<u8>> {
    match o {
        Some(v) => Some(v@),
        None => None,
    }
}

/// `flate2::write::GzEncoder` at `Compression::best()` writing into a
/// `Vec<u8>`, then `finish`. The contract claims that it succeeds (the
/// encoder's only sink is the `Vec`, whose writes cannot fail), that it gives
/// the named compressed bytes, and that the gzip decoder gives the input back
/// from them (what a lossless compressor is for).
#[verifier::external_body]
fn gzip(data: &Vec<u8>) -> (r: Option<Vec<u8>>)
    ensures
        r is Some,
        r.unwrap()@ == gzip_best(data@),
        gunzip(r.unwrap()@) == Some(data@),
{
    let mut gz = flate2::write::GzEncoder::new(Vec::new(), flate2::Compression::best());
    match gz.write_all(data) {
        Ok(()) => gz.finish().ok(),
        Err(_) => None,
    }
}

/// `flate2::read::GzDecoder` over the bytes, read to the end. The contract
/// names what it gives.
#[verifier::external_body]
fn gunzip_bytes(data: &Vec<u8>) -> (r: Option<Vec<u8>>)
    ensures
        opt_bytes(r) == gunzip(data@),
{
    let mut gz = flate2::read::GzDecoder::new(&data[..]);
    let mut out = Vec::new();
    match gz.read_to_end(&mut out) {
        Ok(_) => Some(out),
        Err(_) => None,
    }
}

/// `base64::engine::general_purpose::URL_SAFE_NO_PAD.encode`. The contract
/// claims the standard URL-safe base64 text without padding.
#[verifier::external_body]
fn b64_encode(data: &Vec<u8>) -> (r: String)
    ensures
        r@ == b64url(data@),
{
    base64::Engine::encode(&base64::engine::general_purpose::URL_SAFE_NO_PAD, data)
}

/// `base64::engine::general_purpose::URL_SAFE_NO_PAD.decode` on the text's
/// bytes. The contract claims that it accepts exactly the texts that encode
/// some bytes (no padding, no stray characters, zero unused bits) and then
/// gives those bytes.
#[verifier::external_body]
fn b64_decode(s: &str) -> (r: Option<Vec<u8>>)
    ensures
        r matches Some(b) ==> b64url(b@) == s@,
        r is None ==> forall|b: Seq<u8>| #[trigger] b64url(b) != s@,
{
    base64::Engine::decode(&base64::engine::general_purpose::URL_SAFE_NO_PAD, s.as_bytes()).ok()
}

/// The encoded form of a payload's JSON: gzipped, then URL-safe base64.
pub open spec fn encoded_text(json: Seq<u8>) -> Seq<char> {
    b64url(gzip_best(json))
}

/// Encodes a payload's JSON bytes as URL-safe base64 of their gzip stream.
pub fn encode(json: &Vec<u8>) -> (r: Result<String, VizError>)
    ensures
        r is Ok,
        r.unwrap()@ == encoded_text(json@),
        gunzip(gzip_best(json@)) == Some(json@),
{
    match gzip(json) {
        Some(c) => Ok(b64_encode(&c)),
        None => Err(VizError::Compress),
    }
}

/// What decoding `encoded` gives: a base64 error exactly when the text is no
/// URL-safe base64 of any bytes; otherwise the JSON that those bytes unzip
/// to, or a gzip error when they do not unzip.
pub open spec fn decode_outcome(encoded: Seq<char>, r: Result<Vec<u8>, VizError>) -> bool {
    &&& (forall|b: Seq<u8>| #[trigger] b64url(b) != encoded) <==> r == Err::<Vec<u8>, VizError>(VizError::Base64)
    &&& r matches Ok(j) ==> exists|b: Seq<u8>| #[trigger] b64url(b) == encoded && gunzip(b) == Some(j@)
    &&& r matches Err(e) ==> e == VizError::Base64 || (e == VizError::Gzip && exists|b: Seq<u8>|
        #[trigger] b64url(b) == encoded && gunzip(b) is None)
}

/// Decodes URL-safe base64 of a gzip stream back into the payload's JSON
/// bytes.
pub fn decode(encoded: &str) -> (r: Result<Vec<u8>, VizError>)
    ensures
        decode_outcome(encoded@, r),
{
    match b64_decode(encoded) {
        None => Err(VizError::Base64),
        Some(c) => match gunzip_bytes(&c) {
            Some(j) => Ok(j),
            None => Err(VizError::Gzip),
        },
    }
}

/// Refuses a payload of another schema version.
pub fn check_payload_version(version: u8) -> (r: Result<(), VizError>)
    ensures
        version == PAYLOAD_VERSION <==> r is Ok,
        r matches Err(e) ==> e == (VizError::VersionMismatch { got: version }),
{
    if version == PAYLOAD_VERSION {
        Ok(())
    } else {
        Err(VizError::VersionMismatch { got: version })
    }
}

/// `s` without the `/` characters it ends with.
pub open spec fn trim_trailing_slashes(s: Seq<char>) -> Seq<char>
    decreases s.len(),
{
    if s.len() > 0 && s.last() == '/' {
        trim_trailing_slashes(s.drop_last())
    } else {
        s
    }
}

/// The link for encoded payload text: the base without trailing slashes,
/// `/failure#data=`, then the text.
pub open spec fn link_text(base: Seq<char>, encoded: Seq<char>) -> Seq<char> {
    trim_trailing_slashes(base) + "/failure#data="@ + encoded
}

/// The clickable link for a payload's JSON: the payload goes in the URL
/// fragment, so the server never sees it in requests.
pub fn failure_url(json: &Vec<u8>, base: &str) -> (r: Result<String, VizError>)
    ensures
        r is Ok,
        r.unwrap()@ == link_text(base@, encoded_text(json@)),
{
    let encoded = encode(json)?;
    let cs = crate::text::chars_of(base);
    let mut end: usize = cs.len();
    assert(cs@.take(end as int) =~= cs@);
    while end > 0 && cs[end - 1] == '/'
        invariant
            end <= cs.len(),
            cs@ == base@,
            trim_trailing_slashes(cs@.take(end as int)) == trim_trailing_slashes(base@),
        decreases end,
    {
        assert(cs@.take(end as int).drop_last() =~= cs@.take(end - 1));
        end = end - 1;
    }
    assert(trim_trailing_slashes(cs@.take(end as int)) == cs@.take(end as int));
    let trimmed = crate::text::sub_chars(&cs, 0, end);
    assert(trimmed@ =~= cs@.take(end as int));
    let mut u = crate::text::string_from_chars(&trimmed);
    push_str(&mut u, "/failure#data=");
    push_str(&mut u, encoded.as_str());
    Ok(u)
}

proof fn lemma_b64_digit_injective(a: int, b: int)
    requires
        0 <= a < 64,
        0 <= b < 64,
        b64_digit(a) == b64_digit(b),
    ensures
        a == b,
{
}

proof fn lemma_b64_group(a0: u8, a1: u8, a2: u8, b0: u8, b1: u8, b2: u8)
    requires
        a0 / 4 == b0 / 4,
        (a0 % 4) * 16 + a1 / 16 == (b0 % 4) * 16 + b1 / 16,
        (a1 % 16) * 4 + a2 / 64 == (b1 % 16) * 4 + b2 / 64,
        a2 % 64 == b2 % 64,
    ensures
        a0 == b0 && a1 == b1 && a2 == b2,
{
    assert(a0 == b0 && a1 == b1 && a2 == b2) by (bit_vector)
        requires
            a0 / 4 == b0 / 4,
            (a0 % 4) * 16 + a1 / 16 == (b0 % 4) * 16 + b1 / 16,
            (a1 % 16) * 4 + a2 / 64 == (b1 % 16) * 4 + b2 / 64,
            a2 % 64 == b2 % 64,
    ;
}

proof fn lemma_b64_len(b: Seq<u8>)
    ensures
        b.len() == 0 ==> b64url(b).len() == 0,
        b.len() == 1 ==> b64url(b).len() == 2,
        b.len() == 2 ==> b64url(b).len() == 3,
        b.len() >= 3 ==> b64url(b).len() >= 4,
{
}

/// Different bytes have different encodings.
pub proof fn law_b64_injective(a: Seq<u8>, b: Seq<u8>)
    requires
        b64url(a) == b64url(b),
    ensures
        a == b,
    decreases a.len(),
{
    lemma_b64_len(a);
    lemma_b64_len(b);
    let ea = b64url(a);
    if a.len() >= 3 && b.len() >= 3 {
        let (a0, a1, a2) = (a[0] as int, a[1] as int, a[2] as int);
        let (b0, b1, b2) = (b[0] as int, b[1] as int, b[2] as int);
        assert(ea[0] == b64_digit(a0 / 4) && ea[0] == b64_digit(b0 / 4));
        assert(ea[1] == b64_digit((a0 % 4) * 16 + a1 / 16) && ea[1] == b64_digit((b0 % 4) * 16 + b1 / 16));
        assert(ea[2] == b64_digit((a1 % 16) * 4 + a2 / 64) && ea[2] == b64_digit((b1 % 16) * 4 + b2 / 64));
        assert(ea[3] == b64_digit(a2 % 64) && ea[3] == b64_digit(b2 % 64));
        lemma_b64_digit_injective(a0 / 4, b0 / 4);
        lemma_b64_digit_injective((a0 % 4) * 16 + a1 / 16, (b0 % 4) * 16 + b1 / 16);
        lemma_b64_digit_injective((a1 % 16) * 4 + a2 / 64, (b1 % 16) * 4 + b2 / 64);
        lemma_b64_digit_injective(a2 % 64, b2 % 64);
        lemma_b64_group(a[0], a[1], a[2], b[0], b[1], b[2]);
        assert(b64url(a.skip(3)) =~= ea.skip(4));
        assert(b64url(b.skip(3)) =~= ea.skip(4));
        law_b64_injective(a.skip(3), b.skip(3));
        assert(a =~= seq![a[0], a[1], a[2]] + a.skip(3));
        assert(b =~= seq![b[0], b[1], b[2]] + b.skip(3));
    } else if a.len() == 2 && b.len() == 2 {
        let (a0, a1, b0, b1) = (a[0] as int, a[1] as int, b[0] as int, b[1] as int);
        assert(ea[0] == b64_digit(a0 / 4) && ea[0] == b64_digit(b0 / 4));
        assert(ea[1] == b64_digit((a0 % 4) * 16 + a1 / 16) && ea[1] == b64_digit((b0 % 4) * 16 + b1 / 16));
        assert(ea[2] == b64_digit((a1 % 16) * 4) && ea[2] == b64_digit((b1 % 16) * 4));
        lemma_b64_digit_injective(a0 / 4, b0 / 4);
        lemma_b64_digit_injective((a0 % 4) * 16 + a1 / 16, (b0 % 4) * 16 + b1 / 16);
        lemma_b64_digit_injective((a1 % 16) * 4, (b1 % 16) * 4);
        lemma_b64_group(a[0], a[1], 0, b[0], b[1], 0);
        assert(a =~= b);
    } else if a.len() == 1 && b.len() == 1 {
        let (a0, b0) = (a[0] as int, b[0] as int);
        assert(ea[0] == b64_digit(a0 / 4) && ea[0] == b64_digit(b0 / 4));
        assert(ea[1] == b64_digit((a0 % 4) * 16) && ea[1] == b64_digit((b0 % 4) * 16));
        lemma_b64_digit_injective(a0 / 4, b0 / 4);
        lemma_b64_digit_injective((a0 % 4) * 16, (b0 % 4) * 16);
        lemma_b64_group(a[0], 0, 0, b[0], 0, 0);
        assert(a =~= b);
    } else if a.len() == 0 && b.len() == 0 {
        assert(a =~= b);
    }
}

/// Decoding what was encoded gives the JSON back: for `encoded` as `encode`
/// gives it (which also supplies the gzip fact) and `r` as `decode` gives
/// it on that text.
pub proof fn law_decode_inverts_encode(json: Seq<u8>, encoded: Seq<char>, r: Result<Vec<u8>, VizError>)
    requires
        encoded == encoded_text(json),
        gunzip(gzip_best(json)) == Some(json),
        decode_outcome(encoded, r),
    ensures
        r matches Ok(j) && j@ == json,
{
    assert(b64url(gzip_best(json)) == encoded);
    match r {
        Ok(j) => {
            let b = choose|b: Seq<u8>| #[trigger] b64url(b) == encoded && gunzip(b) == Some(j@);
            law_b64_injective(b, gzip_best(json));
        },
        Err(e) => {
            if e == VizError::Gzip {
                let b = choose|b: Seq<u8>| #[trigger] b64url(b) == encoded && gunzip(b) is None;
                law_b64_injective(b, gzip_best(json));
            }
        },
    }
}

/// Encoded text is URL-safe: letters, digits, `-` and `_` only.
pub proof fn law_b64_url_safe(b: Seq<u8>)
    ensures
        forall|k: int|
            0 <= k < b64url(b).len() ==> is_ascii_alnum(#[trigger] b64url(b)[k]) || b64url(b)[k] == '-' || b64url(
                b,
            )[k] == '_',
    decreases b.len(),
{
    if b.len() >= 3 {
        law_b64_url_safe(b.skip(3));
    }
    assert forall|k: int| 0 <= k < b64url(b).len() implies is_ascii_alnum(#[trigger] b64url(b)[k])
        || b64url(b)[k] == '-' || b64url(b)[k] == '_' by {
        if b.len() >= 3 && k >= 4 {
            assert(b64url(b)[k] == b64url(b.skip(3))[k - 4]);
        }
    }
}

/// Decoding rejects every malformed input: text that is no URL-safe base64
/// gives the base64 error, and text whose bytes do not unzip gives an error;
/// a decoded result is always what some such bytes unzip to. (`r` is what
/// `decode` gives for `encoded`.)
pub proof fn law_decode_rejects_malformed(encoded: Seq<char>, r: Result<Vec<u8>, VizError>)
    requires
        decode_outcome(encoded, r),
    ensures
        (forall|b: Seq<u8>| #[trigger] b64url(b) != encoded) ==> r == Err::<Vec<u8>, VizError>(VizError::Base64),
        (forall|b: Seq<u8>| #[trigger] b64url(b) == encoded ==> gunzip(b) is None) ==> r is Err,
        r matches Ok(j) ==> exists|b: Seq<u8>| #[trigger] b64url(b) == encoded && gunzip(b) == Some(j@),
{
    if forall|b: Seq<u8>| #[trigger] b64url(b) == encoded ==> gunzip(b) is None {
        if r is Ok {
            let j = r->Ok_0;
            let b = choose|b: Seq<u8>| #[trigger] b64url(b) == encoded && gunzip(b) == Some(j@);
        }
    }
}

/// A payload of any other schema version is refused, and the error says
/// that the version does not match.
pub proof fn law_payload_version_mismatch(version: u8)
    requires
        version != PAYLOAD_VERSION,
    ensures
        viz_error_text(VizError::VersionMismatch { got: version }).subrange(15, 31) == "version mismatch"@,
{
    reveal_strlit("FailurePayload version mismatch: got ");
    reveal_strlit("version mismatch");
    let t = viz_error_text(VizError::VersionMismatch { got: version });
    let head = "FailurePayload version mismatch: got "@;
    assert(t.subrange(15, 31) =~= head.subrange(15, 31));
}

} // verus!
