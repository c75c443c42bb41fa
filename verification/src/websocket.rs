//! The websocket handshake of the live-reload endpoint: turning a
//! client's Sec-WebSocket-Key into the accept value, and the fixed frame
//! the endpoint answers with.
use sha1::Digest;
use vstd::prelude::*;
use vstd::string::StrSliceExecFns;
use vstd::string::StringSliceAdditionalSpecFns;

verus! {

/// What the SHA-1 digest of a byte sequence is: a function of the bytes
/// alone.
pub uninterp spec fn sha1_of(data: Seq<u8>) -> Seq<u8>;

/// Relies on `sha1::Sha1` through the digest traits: the 20-byte SHA-1
/// digest of the input.
#[verifier::external_body]
fn sha1_digest(data: &Vec<u8>) -> (r: Vec<u8>)
    ensures
        r@ == sha1_of(data@),
        r@.len() == 20,
{
    let mut hasher = sha1::Sha1::new();
    hasher.update(data.as_slice());
    hasher.finalize().to_vec()
}

/// What the standard base64 text (padded, unwrapped) of a byte sequence
/// is: a function of the bytes alone.
pub uninterp spec fn base64_of(data: Seq<u8>) -> Seq<char>;

/// Relies on `rustc_serialize::base64::ToBase64` with the standard
/// character set, padding on and no line wrapping: the base64 text of
/// the bytes, four characters for every three bytes begun.
#[verifier::external_body]
fn base64_standard(data: &Vec<u8>) -> (r: String)
    ensures
        r@ == base64_of(data@),
        r@.len() == 4 * ((data@.len() + 2) / 3),
{
    rustc_serialize::base64::ToBase64::to_base64(
        data.as_slice(),
        rustc_serialize::base64::Config {
            char_set: rustc_serialize::base64::CharacterSet::Standard,
            pad: true,
            line_length: None,
            newline: rustc_serialize::base64::Newline::LF,
        },
    )
}

/// The accept value owed for a client key: base64 of the SHA-1 digest of
/// the key's bytes followed by the fixed websocket GUID.
pub open spec fn spec_accept_key(key: Seq<u8>) -> Seq<char> {
    base64_of(sha1_of(key + "258EAFA5-E914-47DA-95CA-C5AB0DC85B11".spec_bytes()))
}

/// Turn a Sec-WebSocket-Key header value into the matching
/// Sec-WebSocket-Accept value: always 28 characters, base64 of a
/// 20-byte digest.
pub fn convert_key(input: &str) -> (r: String)
    ensures
        r@ == spec_accept_key(input.spec_bytes()),
        r@.len() == 28,
{
    let mut bytes = input.as_bytes_vec();
    let guid = "258EAFA5-E914-47DA-95CA-C5AB0DC85B11".as_bytes_vec();
    let ghost key_bytes = bytes@;
    let n = guid.len();
    proof {
        assert(bytes@ =~= key_bytes + guid@.take(0));
    }
    let mut i: usize = 0;
    while i < n
        invariant
            n == guid@.len(),
            0 <= i <= n,
            bytes@ == key_bytes + guid@.take(i as int),
        decreases n - i,
    {
        bytes.push(guid[i]);
        proof {
            assert(guid@.take(i + 1) =~= guid@.take(i as int).push(guid@[i as int]));
            assert(bytes@ =~= key_bytes + guid@.take(i + 1));
        }
        i = i + 1;
    }
    proof {
        assert(guid@.take(n as int) =~= guid@);
    }
    let digest = sha1_digest(&bytes);
    base64_standard(&digest)
}

/// The reply the websocket endpoint owes one upgrade request.
pub enum HandshakeReply {
    /// Switch protocols, sending this accept header value back.
    Accept { accept_key: String },
    /// Refuse the request: the client sent no key.
    BadRequest,
}

/// Decide the handshake for one request: a request without a
/// Sec-WebSocket-Key header is refused; any other is accepted with the
/// accept value its key owes.
pub fn websocket_handshake(sec_key: Option<&str>) -> (r: HandshakeReply)
    ensures
        r is BadRequest <==> sec_key is None,
        sec_key matches Some(k) ==> r matches HandshakeReply::Accept { accept_key } && accept_key@
            == spec_accept_key(k.spec_bytes()),
{
    match sec_key {
        None => HandshakeReply::BadRequest,
        Some(k) => HandshakeReply::Accept { accept_key: convert_key(k) },
    }
}

/// The fixed frame the endpoint answers every client byte with: one
/// final text frame carrying "Hello".
pub fn hello_frame() -> (r: Vec<u8>)
    ensures
        r@ == seq![0x81u8, 0x05u8, 0x48u8, 0x65u8, 0x6cu8, 0x6cu8, 0x6fu8],
{
    let r: Vec<u8> = vec![0x81u8, 0x05u8, 0x48u8, 0x65u8, 0x6cu8, 0x6cu8, 0x6fu8];
    proof {
        assert(r@ =~= seq![0x81u8, 0x05u8, 0x48u8, 0x65u8, 0x6cu8, 0x6cu8, 0x6fu8]);
    }
    r
}

} // verus!
