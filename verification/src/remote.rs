//! Shapes shared with the panel's REST surface: paging metadata and the
//! authentication kinds of the SFTP gateway.

use vstd::prelude::*;

verus! {

/// Paging metadata of a panel listing response.
#[derive(Clone, Copy, PartialEq, Eq, Structural, Debug, Default)]
pub struct Pagination {
    pub current_page: usize,
    pub last_page: usize,
    pub total: usize,
}

/// How an SFTP session authenticates against the panel.
#[derive(Clone, Copy, PartialEq, Eq, Structural, Debug)]
pub enum AuthenticationType {
    Password,
    PublicKey,
}

impl AuthenticationType {
    /// The label the panel's auth endpoint expects.
    pub fn label(&self) -> (r: &'static str)
        ensures
            match self {
                AuthenticationType::Password => r@ == "password"@,
                AuthenticationType::PublicKey => r@ == "public_key"@,
            },
    {
        match self {
            AuthenticationType::Password => "password",
            AuthenticationType::PublicKey => "public_key",
        }
    }
}

} // verus!
