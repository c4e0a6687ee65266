//! The authentication payload of the hello message and its wire encoding:
//! a tag byte, then the variant's fields.
use vstd::prelude::*;
use vstd::utf8::{decode_utf8, encode_utf8, valid_utf8};

use super::bytes::{append_bytes, copy_array32, copy_range};
use super::error::ProtocolError;

verus! {

broadcast use vstd::utf8::encode_utf8_valid_utf8, vstd::utf8::encode_utf8_decode_utf8;

/// Tag of [`AuthPayload::NoAuth`].
pub const TAG_NONE: u8 = 0;
/// Tag of [`AuthPayload::Credentials`].
pub const TAG_CREDENTIALS: u8 = 1;
/// Tag of [`AuthPayload::Token`].
pub const TAG_TOKEN: u8 = 2;
/// Tag of [`AuthPayload::Certificate`].
pub const TAG_CERTIFICATE: u8 = 3;

/// Authentication carried in the hello message.
#[derive(Debug, Clone, PartialEq, Eq)]
pub enum AuthPayload {
    /// No authentication: public mode.
    NoAuth,
    /// User name and SHA-256 of the password.
    Credentials { user: String, password_hash: [u8; 32] },
    /// A 32-byte API key or token.
    Token([u8; 32]),
    /// Certificate authentication; the certificate was already checked by
    /// the TLS handshake.
    Certificate,
}

/// An [`AuthPayload`] by value.
pub enum AuthView {
    NoAuth,
    Credentials { user: Seq<char>, password_hash: Seq<u8> },
    Token(Seq<u8>),
    Certificate,
}

impl View for AuthPayload {
    type V = AuthView;

    open spec fn view(&self) -> AuthView {
        match self {
            AuthPayload::NoAuth => AuthView::NoAuth,
            AuthPayload::Credentials { user, password_hash } => AuthView::Credentials {
                user: user@,
                password_hash: password_hash@,
            },
            AuthPayload::Token(t) => AuthView::Token(t@),
            AuthPayload::Certificate => AuthView::Certificate,
        }
    }
}

/// A big-endian `u16` as two bytes.
pub open spec fn be16_bytes(v: nat) -> Seq<u8> {
    seq![(v / 256) as u8, (v % 256) as u8]
}

/// The big-endian `u16` of two bytes.
pub open spec fn be16_value(hi: u8, lo: u8) -> nat {
    hi as nat * 256 + lo as nat
}

/// The wire form of a payload. The user name's length is written as a
/// `u16`, so a name of more than 65535 bytes gets a truncated length.
pub open spec fn encode_spec(a: AuthView) -> Seq<u8> {
    match a {
        AuthView::NoAuth => seq![TAG_NONE],
        AuthView::Credentials { user, password_hash } => {
            let ub = encode_utf8(user);
            seq![TAG_CREDENTIALS] + be16_bytes(ub.len() % 65536) + ub + password_hash
        },
        AuthView::Token(t) => seq![TAG_TOKEN] + t,
        AuthView::Certificate => seq![TAG_CERTIFICATE],
    }
}

/// Decoding a payload from the front of `buf`: the payload and the number of
/// bytes it took, or the error.
pub open spec fn decode_spec(buf: Seq<u8>) -> Result<(AuthView, nat), ProtocolError> {
    if buf.len() == 0 {
        Err(ProtocolError::InvalidMessageLength { expected: 1, got: 0 })
    } else {
        let tag = buf[0];
        let rest = (buf.len() - 1) as nat;
        if tag == TAG_NONE {
            Ok((AuthView::NoAuth, 1))
        } else if tag == TAG_CREDENTIALS {
            if rest < 2 {
                Err(ProtocolError::InvalidMessageLength { expected: 2, got: rest as usize })
            } else {
                let ul = be16_value(buf[1], buf[2]) as int;
                let rem = (buf.len() - 3) as nat;
                if rem < ul + 32 {
                    Err(ProtocolError::InvalidMessageLength { expected: (ul + 32) as usize, got: rem as usize })
                } else {
                    let ub = buf.subrange(3, 3 + ul);
                    if !valid_utf8(ub) {
                        Err(ProtocolError::Utf8)
                    } else {
                        Ok(
                            (
                                AuthView::Credentials {
                                    user: decode_utf8(ub),
                                    password_hash: buf.subrange(3 + ul, 3 + ul + 32),
                                },
                                (3 + ul + 32) as nat,
                            ),
                        )
                    }
                }
            }
        } else if tag == TAG_TOKEN {
            if rest < 32 {
                Err(ProtocolError::InvalidMessageLength { expected: 32, got: rest as usize })
            } else {
                Ok((AuthView::Token(buf.subrange(1, 33)), 33))
            }
        } else if tag == TAG_CERTIFICATE {
            Ok((AuthView::Certificate, 1))
        } else {
            Err(ProtocolError::InvalidAuthTag(tag))
        }
    }
}

/// Calls `String::from_utf8`: `Some` exactly when the bytes are valid UTF-8,
/// holding the characters they encode.
#[verifier::external_body]
fn string_from_utf8(bytes: Vec<u8>) -> (res: Option<String>)
    ensures
        res is Some <==> valid_utf8(bytes@),
        res matches Some(s) ==> s@ == decode_utf8(bytes@),
{
    String::from_utf8(bytes).ok()
}

impl AuthPayload {
    /// The user name fits the `u16` length field.
    pub open spec fn encodable(&self) -> bool {
        match self {
            AuthPayload::Credentials { user, .. } => encode_utf8(user@).len() <= 65535,
            _ => true,
        }
    }

    /// Encodes the payload; see [`encode_spec`].
    pub fn encode(&self) -> (res: Vec<u8>)
        ensures
            res@ == encode_spec(self@),
    {
        let mut buf: Vec<u8> = Vec::new();
        match self {
            AuthPayload::NoAuth => {
                buf.push(TAG_NONE);
                assert(buf@ =~= encode_spec(self@));
            },
            AuthPayload::Credentials { user, password_hash } => {
                buf.push(TAG_CREDENTIALS);
                let user_bytes = user.as_str().as_bytes();
                let n = user_bytes.len();
                let len: u16 = (n % 65536) as u16;
                buf.push((len / 256) as u8);
                buf.push((len % 256) as u8);
                append_bytes(&mut buf, user_bytes);
                append_bytes(&mut buf, password_hash);
                assert(buf@ =~= encode_spec(self@));
            },
            AuthPayload::Token(token) => {
                buf.push(TAG_TOKEN);
                append_bytes(&mut buf, token);
                assert(buf@ =~= encode_spec(self@));
            },
            AuthPayload::Certificate => {
                buf.push(TAG_CERTIFICATE);
                assert(buf@ =~= encode_spec(self@));
            },
        }
        buf
    }

    /// Decodes a payload from the front of `buf`, returning it with the
    /// number of bytes it took; see [`decode_spec`].
    pub fn decode(buf: &[u8]) -> (res: Result<(AuthPayload, usize), ProtocolError>)
        ensures
            match res {
                Ok((a, n)) => decode_spec(buf@) == Ok::<(AuthView, nat), ProtocolError>((a@, n as nat)),
                Err(e) => decode_spec(buf@) == Err::<(AuthView, nat), ProtocolError>(e),
            },
    {
        let len = buf.len();
        if len == 0 {
            return Err(ProtocolError::InvalidMessageLength { expected: 1, got: 0 });
        }
        let tag = buf[0];
        if tag == TAG_NONE {
            Ok((AuthPayload::NoAuth, 1))
        } else if tag == TAG_CREDENTIALS {
            if len - 1 < 2 {
                return Err(ProtocolError::InvalidMessageLength { expected: 2, got: len - 1 });
            }
            let user_len: usize = buf[1] as usize * 256 + buf[2] as usize;
            if len - 3 < user_len + 32 {
                return Err(ProtocolError::InvalidMessageLength { expected: user_len + 32, got: len - 3 });
            }
            let user_bytes = copy_range(buf, 3, 3 + user_len);
            match string_from_utf8(user_bytes) {
                None => Err(ProtocolError::Utf8),
                Some(user) => {
                    let password_hash = copy_array32(buf, 3 + user_len);
                    let res = AuthPayload::Credentials { user, password_hash };
                    assert(res@ == AuthView::Credentials {
                        user: decode_utf8(buf@.subrange(3, 3 + user_len)),
                        password_hash: buf@.subrange(3 + user_len, 3 + user_len + 32),
                    });
                    Ok((res, 3 + user_len + 32))
                },
            }
        } else if tag == TAG_TOKEN {
            if len - 1 < 32 {
                return Err(ProtocolError::InvalidMessageLength { expected: 32, got: len - 1 });
            }
            let token = copy_array32(buf, 1);
            Ok((AuthPayload::Token(token), 33))
        } else if tag == TAG_CERTIFICATE {
            Ok((AuthPayload::Certificate, 1))
        } else {
            Err(ProtocolError::InvalidAuthTag(tag))
        }
    }
}

/// Decoding what [`AuthPayload::encode`] wrote, followed by any bytes, gives
/// the payload back and takes exactly the encoded bytes.
pub proof fn lemma_auth_roundtrip(a: AuthPayload, rest: Seq<u8>)
    requires
        a.encodable(),
    ensures
        decode_spec(encode_spec(a@) + rest) == Ok::<(AuthView, nat), ProtocolError>((a@, encode_spec(a@).len())),
{
    let bytes = encode_spec(a@) + rest;
    match a {
        AuthPayload::Credentials { user, password_hash } => {
            let ub = encode_utf8(user@);
            let ul = ub.len() as int;
            assert(be16_value(bytes[1], bytes[2]) == ul);
            assert(bytes.subrange(3, 3 + ul) =~= ub);
            assert(bytes.subrange(3 + ul, 3 + ul + 32) =~= password_hash@);
        },
        AuthPayload::Token(t) => {
            assert(bytes.subrange(1, 33) =~= t@);
        },
        _ => {},
    }
}

} // verus!
