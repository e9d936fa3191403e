use vstd::prelude::*;

verus! {

/// Failure reported by an outside provider; carries no data of its own.
#[derive(Debug)]
pub struct ProviderError {}

/// Code for a failure while setting up an outside client.
pub const ERROR_CLIENT_INIT: u8 = 1;

/// Code for a tree build refused because no records were supplied.
pub const ERROR_EMPTY_INPUT: u8 = 2;

/// Code for a tree build refused because the record count is not a power of two.
pub const ERROR_NOT_POWER_OF_TWO: u8 = 3;

/// The nested causes that a `MerkleError` can wrap.
#[derive(Debug)]
pub enum InnerMerkleError {
    ClientError(ProviderError),
}

/// An error with a numeric code, a message, and an optional nested cause.
#[derive(Debug)]
pub struct MerkleError {
    code: u8,
    msg: String,
    inner: Option<InnerMerkleError>,
}

impl MerkleError {
    /// The numeric code that classifies this error.
    pub closed spec fn spec_code(&self) -> u8 {
        self.code
    }

    /// The human-readable message carried by this error.
    pub closed spec fn spec_msg(&self) -> Seq<char> {
        self.msg@
    }

    pub fn new(code: u8, msg: String, inner: Option<InnerMerkleError>) -> (e: Self)
        ensures
            e.spec_code() == code,
            e.spec_msg() == msg@,
    {
        MerkleError { code, msg, inner }
    }

    /// Returns the numeric code, so callers can tell failure classes apart.
    pub fn code(&self) -> (c: u8)
        ensures
            c == self.spec_code(),
    {
        self.code
    }

    /// Returns the message text.
    pub fn message(&self) -> (m: &String)
        ensures
            m@ == self.spec_msg(),
    {
        &self.msg
    }
}

impl From<ProviderError> for MerkleError {
    fn from(value: ProviderError) -> (e: MerkleError) {
        MerkleError::new(
            ERROR_CLIENT_INIT,
            "Failed to initialise client".to_owned(),
            Some(InnerMerkleError::ClientError(value)),
        )
    }
}

impl vstd::std_specs::convert::FromSpecImpl<ProviderError> for MerkleError {
    open spec fn obeys_from_spec() -> bool {
        false
    }

    open spec fn from_spec(t: ProviderError) -> MerkleError {
        arbitrary()
    }
}

} // verus!
