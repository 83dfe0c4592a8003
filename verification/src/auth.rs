//! The token a client presents when it connects.
use crate::net::ConnectionError;
use vstd::prelude::*;
use vstd::string::StringSliceAdditionalSpecFns;

verus! {

/// The longest token accepted, in bytes.
pub const TOKEN_MAX_LEN: usize = 1024;

/// The token is longer than `TOKEN_MAX_LEN` bytes.
#[derive(Debug, Clone, Copy, PartialEq, Eq, Structural)]
pub struct TokenSizeInvalid;

/// A client's authentication token.
#[derive(Debug)]
pub struct ClientAuth {
    token: String,
}

impl ClientAuth {
    pub closed spec fn spec_token(&self) -> Seq<char> {
        self.token@
    }

    /// The authentication that carries `token`; a token longer than
    /// `TOKEN_MAX_LEN` bytes is refused.
    pub fn new(token: &str) -> (r: Result<Self, TokenSizeInvalid>)
        ensures
            match r {
                Ok(a) => token.spec_bytes().len() <= TOKEN_MAX_LEN && a.spec_token() == token@,
                Err(_) => token.spec_bytes().len() > TOKEN_MAX_LEN,
            },
    {
        if token.as_bytes().len() > TOKEN_MAX_LEN {
            return Err(TokenSizeInvalid);
        }
        Ok(ClientAuth { token: token.to_owned() })
    }

    pub fn token(&self) -> (t: &str)
        ensures
            t@ == self.spec_token(),
    {
        self.token.as_str()
    }
}

/// The length of a client's authentication record, from its two-byte
/// big-endian prefix `raw`: a record longer than `TOKEN_MAX_LEN` bytes is
/// refused, and the connection is then to be rejected.
pub fn client_auth_len(raw: &[u8]) -> (r: Result<usize, ConnectionError>)
    requires
        raw@.len() == 2,
    ensures
        match r {
            Ok(n) => n == raw@[0] * 256 + raw@[1] && n <= TOKEN_MAX_LEN,
            Err(e) => raw@[0] * 256 + raw@[1] > TOKEN_MAX_LEN && e.0@
                == "ClientAuth size too big. Reject it"@,
        },
{
    let len = (raw[0] as usize) * 256 + raw[1] as usize;
    if len > TOKEN_MAX_LEN {
        return Err(ConnectionError(String::from_str("ClientAuth size too big. Reject it")));
    }
    Ok(len)
}

} // verus!
