//! Authenticated peer identity: a shared cluster-wide token.

use vstd::prelude::*;

use crate::kv::order::equal_bytes;

verus! {

/// The name under which a request carries the token.
pub fn token_metadata_key() -> (key: &'static str)
    ensures
        key@ == "x-cluster-token"@,
{
    "x-cluster-token"
}

/// Why a request is not let through.
#[derive(Clone, Copy, Debug, Eq, PartialEq, Structural)]
pub enum Unauthenticated {
    MissingToken,
    InvalidToken,
}

impl Unauthenticated {
    /// The reason, for a person to read.
    pub fn message(&self) -> (text: &'static str)
        ensures
            text@ == match self {
                Unauthenticated::MissingToken => "missing cluster token"@,
                Unauthenticated::InvalidToken => "invalid cluster token"@,
            },
    {
        match self {
            Unauthenticated::MissingToken => "missing cluster token",
            Unauthenticated::InvalidToken => "invalid cluster token",
        }
    }
}

/// Rejects any request whose token doesn't match the cluster's, before it
/// reaches a service handler.
#[derive(Clone)]
pub struct TokenInterceptor {
    token: Vec<u8>,
}

impl View for TokenInterceptor {
    type V = Seq<u8>;

    closed spec fn view(&self) -> Seq<u8> {
        self.token@
    }
}

impl TokenInterceptor {
    /// An interceptor that lets through whoever presents `token`.
    pub fn new(token: Vec<u8>) -> (interceptor: Self)
        ensures
            interceptor@ == token@,
    {
        TokenInterceptor { token }
    }

    /// Whether a request that presents `presented`, or nothing, is let
    /// through.
    pub fn check(&self, presented: Option<&[u8]>) -> (result: Result<(), Unauthenticated>)
        ensures
            result == match presented {
                None => Err::<(), Unauthenticated>(Unauthenticated::MissingToken),
                Some(token) => if token@ == self@ {
                    Ok(())
                } else {
                    Err(Unauthenticated::InvalidToken)
                },
            },
    {
        match presented {
            None => Err(Unauthenticated::MissingToken),
            Some(token) => {
                if equal_bytes(token, &self.token) {
                    Ok(())
                } else {
                    Err(Unauthenticated::InvalidToken)
                }
            },
        }
    }
}

} // verus!
